//! Field-text normalization and the character-level helpers the rest of the
//! crate builds on: every extracted field has tab and newline characters
//! removed and each `<br>` marker collapsed to a single space.
use vstd::prelude::*;
use vstd::string::StrSliceExecFns;

verus! {

/// Relies on `String`'s `FromIterator<char>` impl: the resulting string
/// holds exactly the given characters, in order.
#[verifier::external_body]
pub(crate) fn string_from_chars(v: &Vec<char>) -> (r: String)
    ensures
        r@ == v@,
{
    v.iter().collect()
}

/// The characters of `s`, in order.
pub fn chars_of(s: &str) -> (v: Vec<char>)
    ensures
        v@ == s@,
{
    let n = s.unicode_len();
    let mut v: Vec<char> = Vec::new();
    let mut i: usize = 0;
    while i < n
        invariant
            n == s@.len(),
            i <= n,
            v@ == s@.take(i as int),
        decreases n - i,
    {
        v.push(s.get_char(i));
        proof {
            assert(v@ =~= s@.take(i + 1 as int));
        }
        i = i + 1;
    }
    proof {
        assert(s@.take(n as int) =~= s@);
    }
    v
}

/// `s` with every occurrence of `c` removed.
pub open spec fn remove_char(s: Seq<char>, c: char) -> Seq<char>
    decreases s.len(),
{
    if s.len() == 0 {
        Seq::empty()
    } else if s[0] == c {
        remove_char(s.skip(1), c)
    } else {
        seq![s[0]] + remove_char(s.skip(1), c)
    }
}

/// A `<br>` line-break marker starts at position `i` of `s`.
pub open spec fn br_at(s: Seq<char>, i: int) -> bool {
    &&& s[i] == '<'
    &&& s[i + 1] == 'b'
    &&& s[i + 2] == 'r'
    &&& s[i + 3] == '>'
}

/// `s` with every `<br>` marker replaced by one space, scanning left to
/// right without overlap.
pub open spec fn replace_br(s: Seq<char>) -> Seq<char>
    decreases s.len(),
{
    if s.len() == 0 {
        Seq::empty()
    } else if s.len() >= 4 && br_at(s, 0) {
        seq![' '] + replace_br(s.skip(4))
    } else {
        seq![s[0]] + replace_br(s.skip(1))
    }
}

/// Full field normalization: tabs removed, then newlines removed, then
/// `<br>` markers collapsed to spaces.
pub open spec fn norm_text(s: Seq<char>) -> Seq<char> {
    replace_br(remove_char(remove_char(s, '\t'), '\n'))
}

/// No `<br>` marker occurs anywhere in `t`.
pub open spec fn no_br(t: Seq<char>) -> bool {
    forall|i: int| 0 <= i && i + 4 <= t.len() ==> !br_at(t, i)
}

/// A text is in normal form when it holds no tab, no newline, and no
/// `<br>` marker.
pub open spec fn is_normal(t: Seq<char>) -> bool {
    &&& forall|i: int| 0 <= i < t.len() ==> t[i] != '\t' && t[i] != '\n'
    &&& no_br(t)
}

proof fn lemma_remove_char_gone(s: Seq<char>, c: char)
    ensures
        forall|j: int| 0 <= j < remove_char(s, c).len() ==> remove_char(s, c)[j] != c,
    decreases s.len(),
{
    if s.len() > 0 {
        lemma_remove_char_gone(s.skip(1), c);
        let r = remove_char(s, c);
        let tail = remove_char(s.skip(1), c);
        if s[0] != c {
            assert forall|j: int| 0 <= j < r.len() implies r[j] != c by {
                if j > 0 {
                    assert(r[j] == tail[j - 1]);
                }
            }
        }
    }
}

proof fn lemma_remove_char_keeps_absent(s: Seq<char>, c: char, d: char)
    requires
        forall|j: int| 0 <= j < s.len() ==> s[j] != d,
    ensures
        forall|j: int| 0 <= j < remove_char(s, c).len() ==> remove_char(s, c)[j] != d,
    decreases s.len(),
{
    if s.len() > 0 {
        assert(forall|j: int| 0 <= j < s.skip(1).len() ==> s.skip(1)[j] != d);
        lemma_remove_char_keeps_absent(s.skip(1), c, d);
        let r = remove_char(s, c);
        let tail = remove_char(s.skip(1), c);
        if s[0] != c {
            assert forall|j: int| 0 <= j < r.len() implies r[j] != d by {
                if j > 0 {
                    assert(r[j] == tail[j - 1]);
                }
            }
        }
    }
}

proof fn lemma_replace_br_keeps_absent(s: Seq<char>, d: char)
    requires
        d != ' ',
        forall|j: int| 0 <= j < s.len() ==> s[j] != d,
    ensures
        forall|j: int| 0 <= j < replace_br(s).len() ==> replace_br(s)[j] != d,
    decreases s.len(),
{
    if s.len() == 0 {
    } else if s.len() >= 4 && br_at(s, 0) {
        assert(forall|j: int| 0 <= j < s.skip(4).len() ==> s.skip(4)[j] != d);
        lemma_replace_br_keeps_absent(s.skip(4), d);
        let r = replace_br(s);
        let tail = replace_br(s.skip(4));
        assert forall|j: int| 0 <= j < r.len() implies r[j] != d by {
            if j > 0 {
                assert(r[j] == tail[j - 1]);
            }
        }
    } else {
        assert(forall|j: int| 0 <= j < s.skip(1).len() ==> s.skip(1)[j] != d);
        lemma_replace_br_keeps_absent(s.skip(1), d);
        let r = replace_br(s);
        let tail = replace_br(s.skip(1));
        assert forall|j: int| 0 <= j < r.len() implies r[j] != d by {
            if j > 0 {
                assert(r[j] == tail[j - 1]);
            }
        }
    }
}

proof fn lemma_replace_br_len(s: Seq<char>)
    ensures
        replace_br(s).len() <= s.len(),
    decreases s.len(),
{
    if s.len() == 0 {
    } else if s.len() >= 4 && br_at(s, 0) {
        lemma_replace_br_len(s.skip(4));
    } else {
        lemma_replace_br_len(s.skip(1));
    }
}

/// The first character that `replace_br` emits is a space or the input's
/// own first character.
proof fn lemma_replace_br_head(s: Seq<char>)
    requires
        s.len() > 0,
    ensures
        replace_br(s).len() > 0,
        replace_br(s)[0] == ' ' || replace_br(s)[0] == s[0],
        replace_br(s)[0] != ' ' ==> replace_br(s) == seq![s[0]] + replace_br(s.skip(1)),
{
    if s.len() >= 4 && br_at(s, 0) {
        assert(replace_br(s)[0] == ' ');
    }
}

proof fn lemma_replace_br_no_br(s: Seq<char>)
    ensures
        no_br(replace_br(s)),
    decreases s.len(),
{
    if s.len() == 0 {
    } else if s.len() >= 4 && br_at(s, 0) {
        lemma_replace_br_no_br(s.skip(4));
        let r = replace_br(s);
        let tail = replace_br(s.skip(4));
        assert forall|i: int| 0 <= i && i + 4 <= r.len() implies !br_at(r, i) by {
            if i == 0 {
                assert(r[0] == ' ');
            } else {
                assert(br_at(r, i) ==> br_at(tail, i - 1));
            }
        }
    } else {
        lemma_replace_br_no_br(s.skip(1));
        let r = replace_br(s);
        let tail = replace_br(s.skip(1));
        assert(r == seq![s[0]] + tail);
        assert forall|i: int| 0 <= i && i + 4 <= r.len() implies !br_at(r, i) by {
            if i == 0 {
                lemma_replace_br_head_not_br(s);
            } else {
                assert(br_at(r, i) ==> br_at(tail, i - 1));
            }
        }
    }
}

/// When no `<br>` marker starts the input, none starts the output either.
proof fn lemma_replace_br_head_not_br(s: Seq<char>)
    requires
        s.len() > 0,
        !(s.len() >= 4 && br_at(s, 0)),
    ensures
        replace_br(s).len() >= 4 ==> !br_at(replace_br(s), 0),
{
    let r = replace_br(s);
    if r.len() >= 4 && br_at(r, 0) {
        assert(r == seq![s[0]] + replace_br(s.skip(1)));
        lemma_replace_br_len(s.skip(1));
        assert(s.len() >= 4);
        let s1 = s.skip(1);
        let r1 = replace_br(s1);
        assert(r1[0] == 'b' && r1[1] == 'r' && r1[2] == '>');
        lemma_replace_br_head(s1);
        assert(s1[0] == 'b');
        assert(r1 == seq![s1[0]] + replace_br(s1.skip(1)));
        let s2 = s1.skip(1);
        let r2 = replace_br(s2);
        assert(r2[0] == 'r' && r2[1] == '>');
        lemma_replace_br_head(s2);
        assert(s2[0] == 'r');
        assert(r2 == seq![s2[0]] + replace_br(s2.skip(1)));
        let s3 = s2.skip(1);
        let r3 = replace_br(s3);
        assert(r3[0] == '>');
        lemma_replace_br_head(s3);
        assert(s3[0] == '>');
        assert(s1 =~= s.skip(1));
        assert(s2 =~= s.skip(2));
        assert(s3 =~= s.skip(3));
        assert(s[1] == 'b' && s[2] == 'r' && s[3] == '>');
        assert(br_at(s, 0));
    }
}

/// Law: normalization leaves no tab, no newline, and no `<br>` marker in
/// any field.
pub proof fn lemma_norm_text_normal(s: Seq<char>)
    ensures
        is_normal(norm_text(s)),
{
    let a = remove_char(s, '\t');
    let b = remove_char(a, '\n');
    lemma_remove_char_gone(s, '\t');
    lemma_remove_char_keeps_absent(a, '\n', '\t');
    lemma_remove_char_gone(a, '\n');
    lemma_replace_br_keeps_absent(b, '\t');
    lemma_replace_br_keeps_absent(b, '\n');
    lemma_replace_br_no_br(b);
}

/// `v` with every occurrence of `c` removed.
pub fn remove_char_vec(v: &Vec<char>, c: char) -> (r: Vec<char>)
    ensures
        r@ == remove_char(v@, c),
{
    let mut out: Vec<char> = Vec::new();
    let mut i: usize = 0;
    proof {
        assert(v@.skip(0) =~= v@);
        assert(Seq::<char>::empty() + remove_char(v@, c) =~= remove_char(v@, c));
    }
    while i < v.len()
        invariant
            i <= v@.len(),
            remove_char(v@, c) == out@ + remove_char(v@.skip(i as int), c),
        decreases v@.len() - i,
    {
        proof {
            assert(v@.skip(i as int).skip(1) =~= v@.skip(i + 1 as int));
            assert(v@.skip(i as int)[0] == v@[i as int]);
        }
        if v[i] != c {
            out.push(v[i]);
            proof {
                assert(out@ + remove_char(v@.skip(i + 1 as int), c) =~= out@.drop_last()
                    + (seq![v@[i as int]] + remove_char(v@.skip(i + 1 as int), c)));
            }
        }
        i = i + 1;
    }
    proof {
        assert(v@.skip(v@.len() as int) =~= Seq::<char>::empty());
        assert(out@ + Seq::<char>::empty() =~= out@);
    }
    out
}

/// `v` with every `<br>` marker replaced by one space.
pub fn replace_br_vec(v: &Vec<char>) -> (r: Vec<char>)
    ensures
        r@ == replace_br(v@),
{
    let mut out: Vec<char> = Vec::new();
    let mut i: usize = 0;
    proof {
        assert(v@.skip(0) =~= v@);
        assert(Seq::<char>::empty() + replace_br(v@) =~= replace_br(v@));
    }
    while i < v.len()
        invariant
            i <= v@.len(),
            replace_br(v@) == out@ + replace_br(v@.skip(i as int)),
        decreases v@.len() - i,
    {
        proof {
            assert(v@.skip(i as int).skip(1) =~= v@.skip(i + 1 as int));
            assert forall|k: int| 0 <= k < v@.len() - i implies v@.skip(i as int)[k] == v@[i
                + k] by {}
        }
        if v.len() - i >= 4 && v[i] == '<' && v[i + 1] == 'b' && v[i + 2] == 'r' && v[i + 3]
            == '>' {
            out.push(' ');
            proof {
                assert(v@.skip(i as int).skip(4) =~= v@.skip(i + 4 as int));
                assert(br_at(v@.skip(i as int), 0));
                assert(out@ + replace_br(v@.skip(i + 4 as int)) =~= out@.drop_last() + (seq![' ']
                    + replace_br(v@.skip(i + 4 as int))));
            }
            i = i + 4;
        } else {
            out.push(v[i]);
            proof {
                assert(!(v@.skip(i as int).len() >= 4 && br_at(v@.skip(i as int), 0)));
                assert(out@ + replace_br(v@.skip(i + 1 as int)) =~= out@.drop_last() + (seq![v@[
                    i as int]] + replace_br(v@.skip(i + 1 as int))));
            }
            i = i + 1;
        }
    }
    proof {
        assert(v@.skip(v@.len() as int) =~= Seq::<char>::empty());
        assert(out@ + Seq::<char>::empty() =~= out@);
    }
    out
}

/// Normalizes one extracted field: removes tabs and newlines and collapses
/// `<br>` markers to single spaces.
pub fn normalize_field(s: &str) -> (r: String)
    ensures
        r@ == norm_text(s@),
{
    let raw = chars_of(s);
    let no_tab = remove_char_vec(&raw, '\t');
    let no_nl = remove_char_vec(&no_tab, '\n');
    let replaced = replace_br_vec(&no_nl);
    string_from_chars(&replaced)
}

} // verus!
