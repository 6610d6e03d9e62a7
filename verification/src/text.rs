//! Text helpers: joining strings with a separator, and trimming whitespace.

use vstd::prelude::*;

verus! {

/// The strings of `list` with `sep` between each two neighbours.
pub open spec fn seq_join(list: Seq<Seq<char>>, sep: Seq<char>) -> Seq<char>
    decreases list.len(),
{
    if list.len() == 0 {
        Seq::empty()
    } else if list.len() == 1 {
        list[0]
    } else {
        seq_join(list.drop_last(), sep) + sep + list.last()
    }
}

/// Joining no string gives the empty text; joining one string gives that string.
pub proof fn lemma_join_short(s: Seq<char>, sep: Seq<char>)
    ensures
        seq_join(Seq::<Seq<char>>::empty(), sep) == Seq::<char>::empty(),
        seq_join(seq![s], sep) == s,
{
    assert(seq![s].len() == 1);
    assert(seq![s][0] == s);
}

/// Joining two non-empty lists one after the other gives the two joined texts with one
/// separator between them: the joined text has exactly one separator between each two
/// neighbours, and none at either end.
pub proof fn lemma_join_concat(a: Seq<Seq<char>>, b: Seq<Seq<char>>, sep: Seq<char>)
    requires
        a.len() > 0,
        b.len() > 0,
    ensures
        seq_join(a + b, sep) == seq_join(a, sep) + sep + seq_join(b, sep),
    decreases b.len(),
{
    if b.len() == 1 {
        assert((a + b).drop_last() =~= a);
        assert((a + b).last() == b[0]);
    } else {
        let b0 = b.drop_last();
        lemma_join_concat(a, b0, sep);
        assert((a + b).drop_last() =~= a + b0);
        assert((a + b).last() == b.last());
        assert(seq_join(a + b, sep) == seq_join(a + b0, sep) + sep + b.last());
        assert(seq_join(b, sep) == seq_join(b0, sep) + sep + b.last());
        assert(seq_join(a, sep) + sep + seq_join(b0, sep) + sep + b.last() =~= seq_join(a, sep) + sep + (
        seq_join(b0, sep) + sep + b.last()));
    }
}

/// The characters that have Unicode's `White_Space` property.
pub open spec fn is_whitespace(c: char) -> bool {
    let n = c as u32;
    ||| 0x09 <= n <= 0x0d
    ||| n == 0x20
    ||| n == 0x85
    ||| n == 0xa0
    ||| n == 0x1680
    ||| 0x2000 <= n <= 0x200a
    ||| n == 0x2028
    ||| n == 0x2029
    ||| n == 0x202f
    ||| n == 0x205f
    ||| n == 0x3000
}

/// `s` without its leading whitespace.
pub open spec fn trim_start_seq(s: Seq<char>) -> Seq<char>
    decreases s.len(),
{
    if s.len() > 0 && is_whitespace(s[0]) {
        trim_start_seq(s.drop_first())
    } else {
        s
    }
}

/// `s` without its trailing whitespace.
pub open spec fn trim_end_seq(s: Seq<char>) -> Seq<char>
    decreases s.len(),
{
    if s.len() > 0 && is_whitespace(s.last()) {
        trim_end_seq(s.drop_last())
    } else {
        s
    }
}

/// `s` without its leading and trailing whitespace.
pub open spec fn trim_seq(s: Seq<char>) -> Seq<char> {
    trim_end_seq(trim_start_seq(s))
}

/// Trimming the start removes exactly the leading whitespace: what is left is a suffix of
/// `s` that is empty or starts with a character that is not whitespace, and all that was
/// removed is whitespace.
pub proof fn lemma_trim_start(s: Seq<char>)
    ensures
        trim_start_seq(s).len() <= s.len(),
        trim_start_seq(s) == s.subrange(s.len() - trim_start_seq(s).len(), s.len() as int),
        trim_start_seq(s).len() > 0 ==> !is_whitespace(trim_start_seq(s)[0]),
        forall|i: int| 0 <= i < s.len() - trim_start_seq(s).len() ==> is_whitespace(#[trigger] s[i]),
    decreases s.len(),
{
    if s.len() > 0 && is_whitespace(s[0]) {
        let r = s.drop_first();
        lemma_trim_start(r);
        assert(r.subrange(r.len() - trim_start_seq(r).len(), r.len() as int) =~= s.subrange(
            s.len() - trim_start_seq(s).len(),
            s.len() as int,
        ));
        assert forall|i: int| 0 <= i < s.len() - trim_start_seq(s).len() implies is_whitespace(#[trigger] s[i]) by {
            if i > 0 {
                assert(s[i] == r[i - 1]);
            }
        }
    } else {
        assert(s.subrange(0, s.len() as int) =~= s);
    }
}

/// Trimming the end removes exactly the trailing whitespace: what is left is a prefix of
/// `s` that is empty or ends with a character that is not whitespace, and all that was
/// removed is whitespace.
pub proof fn lemma_trim_end(s: Seq<char>)
    ensures
        trim_end_seq(s).len() <= s.len(),
        trim_end_seq(s) == s.subrange(0, trim_end_seq(s).len() as int),
        trim_end_seq(s).len() > 0 ==> !is_whitespace(trim_end_seq(s).last()),
        forall|i: int| trim_end_seq(s).len() <= i < s.len() ==> is_whitespace(#[trigger] s[i]),
    decreases s.len(),
{
    if s.len() > 0 && is_whitespace(s.last()) {
        let r = s.drop_last();
        lemma_trim_end(r);
        assert(r.subrange(0, trim_end_seq(r).len() as int) =~= s.subrange(0, trim_end_seq(s).len() as int));
        assert forall|i: int| trim_end_seq(s).len() <= i < s.len() implies is_whitespace(#[trigger] s[i]) by {
            if i < s.len() - 1 {
                assert(s[i] == r[i]);
            }
        }
    } else {
        assert(s.subrange(0, s.len() as int) =~= s);
    }
}

/// Whether `c` has Unicode's `White_Space` property.
pub fn is_whitespace_char(c: char) -> (res: bool)
    ensures
        res == is_whitespace(c),
{
    let n = c as u32;
    (0x09 <= n && n <= 0x0d) || n == 0x20 || n == 0x85 || n == 0xa0 || n == 0x1680 || (0x2000 <= n && n
        <= 0x200a) || n == 0x2028 || n == 0x2029 || n == 0x202f || n == 0x205f || n == 0x3000
}

/// Whitespace before position `i` does not change what trimming the start gives.
proof fn lemma_trim_start_step(s: Seq<char>, i: int)
    requires
        0 <= i < s.len(),
        is_whitespace(s[i]),
    ensures
        trim_start_seq(s.subrange(i, s.len() as int)) == trim_start_seq(s.subrange(i + 1, s.len() as int)),
{
    let t = s.subrange(i, s.len() as int);
    assert(t[0] == s[i]);
    assert(t.drop_first() =~= s.subrange(i + 1, s.len() as int));
}

/// Whitespace at the end does not change what trimming the end gives.
proof fn lemma_trim_end_step(s: Seq<char>, j: int)
    requires
        0 < j <= s.len(),
        is_whitespace(s[j - 1]),
    ensures
        trim_end_seq(s.subrange(0, j)) == trim_end_seq(s.subrange(0, j - 1)),
{
    let t = s.subrange(0, j);
    assert(t.last() == s[j - 1]);
    assert(t.drop_last() =~= s.subrange(0, j - 1));
}

/// The text without trailing `White_Space` characters, as `str::trim_end` gives it.
pub fn trim_end(s: &str) -> (res: String)
    ensures
        res@ == trim_end_seq(s@),
{
    let n = s.unicode_len();
    let mut j: usize = n;
    assert(s@.subrange(0, n as int) =~= s@);
    loop
        invariant
            n == s@.len(),
            j <= n,
            trim_end_seq(s@) == trim_end_seq(s@.subrange(0, j as int)),
        ensures
            j <= n,
            trim_end_seq(s@) == trim_end_seq(s@.subrange(0, j as int)),
            j == 0 || !is_whitespace(s@[j - 1]),
        decreases j,
    {
        if j == 0 {
            break;
        }
        let c = s.get_char(j - 1);
        if !is_whitespace_char(c) {
            break;
        }
        proof {
            lemma_trim_end_step(s@, j as int);
        }
        j = j - 1;
    }
    let kept = s.substring_char(0, j);
    proof {
        let t = s@.subrange(0, j as int);
        if j > 0 {
            assert(t.last() == s@[j - 1]);
        }
        assert(trim_end_seq(t) == t);
    }
    String::from_str(kept)
}

/// The text without leading and trailing `White_Space` characters, as `str::trim` gives it.
pub fn trim(s: &str) -> (res: String)
    ensures
        res@ == trim_seq(s@),
{
    let n = s.unicode_len();
    let mut i: usize = 0;
    assert(s@.subrange(0, n as int) =~= s@);
    loop
        invariant
            n == s@.len(),
            i <= n,
            trim_start_seq(s@) == trim_start_seq(s@.subrange(i as int, n as int)),
        ensures
            i <= n,
            trim_start_seq(s@) == trim_start_seq(s@.subrange(i as int, n as int)),
            i == n || !is_whitespace(s@[i as int]),
        decreases n - i,
    {
        if i == n {
            break;
        }
        let c = s.get_char(i);
        if !is_whitespace_char(c) {
            break;
        }
        proof {
            lemma_trim_start_step(s@, i as int);
        }
        i = i + 1;
    }
    let rest = s.substring_char(i, n);
    proof {
        let t = s@.subrange(i as int, n as int);
        if i < n {
            assert(t[0] == s@[i as int]);
        }
        assert(trim_start_seq(t) == t);
    }
    trim_end(rest)
}

/// The strings of `list` joined with `sep`, as `[String]::join` does.
pub fn join(list: &Vec<String>, sep: &str) -> (res: String)
    ensures
        res@ == seq_join(list@.map_values(|s: String| s@), sep@),
{
    let ghost texts = list@.map_values(|s: String| s@);
    let mut res = String::new();
    let n = list.len();
    let mut i: usize = 0;
    while i < n
        invariant
            n == list@.len(),
            i <= n,
            texts == list@.map_values(|s: String| s@),
            res@ == seq_join(texts.take(i as int), sep@),
        decreases n - i,
    {
        if i != 0 {
            res.append(sep);
        }
        res.append(list[i].as_str());
        proof {
            assert(texts.take(i + 1).drop_last() =~= texts.take(i as int));
            if i == 0 {
                assert(texts.take(0) =~= Seq::<Seq<char>>::empty());
            }
        }
        i = i + 1;
    }
    assert(texts.take(n as int) =~= texts);
    res
}

} // verus!
