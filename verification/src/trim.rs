//! Pure per-line trimming operations: stripping the maximal run of leading
//! ideographic-space characters (U+3000) from a line of text, and trimming
//! ASCII whitespace from both ends of a byte sequence.

use vstd::prelude::*;

verus! {

/// Number of consecutive ideographic-space characters (U+3000) at the
/// start of a character sequence.
pub open spec fn ideo_prefix_len(s: Seq<char>) -> nat
    decreases s.len(),
{
    if s.len() == 0 || s[0] != '\u{3000}' {
        0
    } else {
        1 + ideo_prefix_len(s.drop_first())
    }
}

/// The character sequence with its maximal run of leading ideographic
/// spaces removed; every later character, ideographic spaces included,
/// is kept.
pub open spec fn strip_ideo(s: Seq<char>) -> Seq<char> {
    s.skip(ideo_prefix_len(s) as int)
}

/// Law: the stripped text never begins with an ideographic space, and it
/// is the exact suffix of the input that follows a run of ideographic
/// spaces: nothing else is removed, altered or reordered.
pub proof fn lemma_strip_ideo_properties(s: Seq<char>)
    ensures
        ideo_prefix_len(s) <= s.len(),
        strip_ideo(s) == s.skip(ideo_prefix_len(s) as int),
        forall|j: int| 0 <= j < ideo_prefix_len(s) ==> s[j] == '\u{3000}',
        strip_ideo(s).len() > 0 ==> strip_ideo(s)[0] != '\u{3000}',
    decreases s.len(),
{
    if s.len() == 0 || s[0] != '\u{3000}' {
    } else {
        lemma_strip_ideo_properties(s.drop_first());
        let p = ideo_prefix_len(s) as int;
        assert forall|j: int| 0 <= j < p implies s[j] == '\u{3000}' by {
            if j > 0 {
                assert(s.drop_first()[j - 1] == '\u{3000}');
            }
        }
        assert(strip_ideo(s) =~= strip_ideo(s.drop_first()));
    }
}

/// Law: a text made only of ideographic spaces (the empty text included)
/// strips to the empty text.
pub proof fn lemma_strip_ideo_all(s: Seq<char>)
    requires
        forall|i: int| 0 <= i < s.len() ==> s[i] == '\u{3000}',
    ensures
        strip_ideo(s) == Seq::<char>::empty(),
    decreases s.len(),
{
    lemma_strip_ideo_properties(s);
    if ideo_prefix_len(s) < s.len() {
        assert(s[ideo_prefix_len(s) as int] == '\u{3000}');
        lemma_ideo_prefix_stops(s);
        assert(false);
    }
    assert(strip_ideo(s) =~= Seq::<char>::empty());
}

proof fn lemma_ideo_prefix_stops(s: Seq<char>)
    ensures
        ideo_prefix_len(s) < s.len() ==> s[ideo_prefix_len(s) as int] != '\u{3000}',
    decreases s.len(),
{
    if s.len() == 0 || s[0] != '\u{3000}' {
    } else {
        lemma_ideo_prefix_stops(s.drop_first());
    }
}

proof fn lemma_ideo_prefix_from_scan(s: Seq<char>, k: nat)
    requires
        k <= s.len(),
        forall|j: int| 0 <= j < k ==> s[j] == '\u{3000}',
        k < s.len() ==> s[k as int] != '\u{3000}',
    ensures
        ideo_prefix_len(s) == k,
    decreases k,
{
    if k == 0 {
    } else {
        assert(s[0] == '\u{3000}');
        assert forall|j: int| 0 <= j < k - 1 implies s.drop_first()[j] == '\u{3000}' by {
            assert(s[j + 1] == '\u{3000}');
        }
        lemma_ideo_prefix_from_scan(s.drop_first(), (k - 1) as nat);
    }
}

/// Strips the maximal run of leading ideographic-space characters (U+3000)
/// from a line; ideographic spaces occurring later in the line are kept.
/// The result is a suffix view of the input.
pub fn trim_start_str(x: &str) -> (r: &str)
    ensures
        r@ == strip_ideo(x@),
{
    let n = x.unicode_len();
    let mut i: usize = 0;
    while i < n && x.get_char(i) == '\u{3000}'
        invariant
            n == x@.len(),
            i <= n,
            forall|j: int| 0 <= j < i ==> x@[j] == '\u{3000}',
        decreases n - i,
    {
        i = i + 1;
    }
    proof {
        lemma_ideo_prefix_from_scan(x@, i as nat);
        assert(x@.subrange(i as int, n as int) =~= strip_ideo(x@));
    }
    x.substring_char(i, n)
}

/// True of the bytes this library treats as ASCII whitespace: space,
/// horizontal tab, line feed, vertical tab, form feed, carriage return.
pub open spec fn is_ascii_ws(b: u8) -> bool {
    b == 0x20 || b == 0x09 || b == 0x0a || b == 0x0b || b == 0x0c || b == 0x0d
}

/// Number of consecutive ASCII-whitespace bytes at the start of a byte
/// sequence.
pub open spec fn ws_prefix_len(s: Seq<u8>) -> nat
    decreases s.len(),
{
    if s.len() == 0 || !is_ascii_ws(s[0]) {
        0
    } else {
        1 + ws_prefix_len(s.drop_first())
    }
}

/// Number of consecutive ASCII-whitespace bytes at the end of a byte
/// sequence.
pub open spec fn ws_suffix_len(s: Seq<u8>) -> nat
    decreases s.len(),
{
    if s.len() == 0 || !is_ascii_ws(s.last()) {
        0
    } else {
        1 + ws_suffix_len(s.drop_last())
    }
}

/// The byte sequence from its first non-whitespace byte to its last
/// non-whitespace byte, inclusive; empty when no such byte exists.
pub open spec fn trim_ascii(s: Seq<u8>) -> Seq<u8> {
    if ws_prefix_len(s) == s.len() {
        Seq::<u8>::empty()
    } else {
        s.subrange(ws_prefix_len(s) as int, s.len() - ws_suffix_len(s))
    }
}

pub proof fn lemma_ws_prefix_facts(s: Seq<u8>)
    ensures
        ws_prefix_len(s) <= s.len(),
        forall|j: int| 0 <= j < ws_prefix_len(s) ==> is_ascii_ws(s[j]),
        ws_prefix_len(s) < s.len() ==> !is_ascii_ws(s[ws_prefix_len(s) as int]),
    decreases s.len(),
{
    if s.len() == 0 || !is_ascii_ws(s[0]) {
    } else {
        lemma_ws_prefix_facts(s.drop_first());
        let p = ws_prefix_len(s) as int;
        assert forall|j: int| 0 <= j < p implies is_ascii_ws(s[j]) by {
            if j > 0 {
                assert(is_ascii_ws(s.drop_first()[j - 1]));
            }
        }
    }
}

pub proof fn lemma_ws_suffix_facts(s: Seq<u8>)
    ensures
        ws_suffix_len(s) <= s.len(),
        forall|j: int| s.len() - ws_suffix_len(s) <= j < s.len() ==> is_ascii_ws(s[j]),
        ws_suffix_len(s) < s.len() ==> !is_ascii_ws(s[s.len() - ws_suffix_len(s) - 1]),
    decreases s.len(),
{
    if s.len() == 0 || !is_ascii_ws(s.last()) {
    } else {
        lemma_ws_suffix_facts(s.drop_last());
        let q = s.len() - ws_suffix_len(s);
        assert forall|j: int| q <= j < s.len() implies is_ascii_ws(s[j]) by {
            if j < s.len() - 1 {
                assert(is_ascii_ws(s.drop_last()[j]));
            }
        }
    }
}

pub proof fn lemma_ws_prefix_suffix_bound(s: Seq<u8>)
    ensures
        ws_prefix_len(s) < s.len() ==> ws_prefix_len(s) + ws_suffix_len(s) < s.len(),
{
    lemma_ws_prefix_facts(s);
    lemma_ws_suffix_facts(s);
    if ws_prefix_len(s) < s.len() && ws_prefix_len(s) + ws_suffix_len(s) >= s.len() {
        assert(is_ascii_ws(s[ws_prefix_len(s) as int]));
        assert(false);
    }
}

proof fn lemma_ws_prefix_from_scan(s: Seq<u8>, k: nat)
    requires
        k <= s.len(),
        forall|j: int| 0 <= j < k ==> is_ascii_ws(s[j]),
        k < s.len() ==> !is_ascii_ws(s[k as int]),
    ensures
        ws_prefix_len(s) == k,
    decreases k,
{
    if k == 0 {
    } else {
        assert(is_ascii_ws(s[0]));
        assert forall|j: int| 0 <= j < k - 1 implies is_ascii_ws(s.drop_first()[j]) by {
            assert(is_ascii_ws(s[j + 1]));
        }
        lemma_ws_prefix_from_scan(s.drop_first(), (k - 1) as nat);
    }
}

pub proof fn lemma_ws_suffix_from_scan(s: Seq<u8>, k: nat)
    requires
        k <= s.len(),
        forall|j: int| s.len() - k <= j < s.len() ==> is_ascii_ws(s[j]),
        k < s.len() ==> !is_ascii_ws(s[s.len() - k - 1]),
    ensures
        ws_suffix_len(s) == k,
    decreases k,
{
    if k == 0 {
    } else {
        assert(is_ascii_ws(s.last()));
        let t = s.drop_last();
        assert forall|j: int| t.len() - (k - 1) <= j < t.len() implies is_ascii_ws(t[j]) by {
            assert(is_ascii_ws(s[j]));
        }
        lemma_ws_suffix_from_scan(t, (k - 1) as nat);
    }
}

/// Exec test for the ASCII-whitespace byte set used by this library.
fn is_ws_byte(b: u8) -> (r: bool)
    ensures
        r == is_ascii_ws(b),
{
    b == 0x20 || b == 0x09 || b == 0x0a || b == 0x0b || b == 0x0c || b == 0x0d
}

/// Returns the subrange of the input from its first non-whitespace byte to
/// its last non-whitespace byte, inclusive; the empty slice when the input
/// holds no non-whitespace byte.
pub fn trim_ascii_whitespace(x: &[u8]) -> (r: &[u8])
    ensures
        r@ == trim_ascii(x@),
{
    let n = x.len();
    let mut from: usize = 0;
    while from < n && is_ws_byte(x[from])
        invariant
            n == x@.len(),
            from <= n,
            forall|j: int| 0 <= j < from ==> is_ascii_ws(x@[j]),
        decreases n - from,
    {
        from = from + 1;
    }
    if from == n {
        proof {
            lemma_ws_prefix_from_scan(x@, n as nat);
            assert(x@.subrange(0, 0) =~= trim_ascii(x@));
        }
        return vstd::slice::slice_subrange(x, 0, 0);
    }
    proof {
        lemma_ws_prefix_from_scan(x@, from as nat);
    }
    let mut to: usize = n;
    while is_ws_byte(x[to - 1])
        invariant
            n == x@.len(),
            from < to <= n,
            !is_ascii_ws(x@[from as int]),
            forall|j: int| to <= j < n ==> is_ascii_ws(x@[j]),
        decreases to,
    {
        to = to - 1;
    }
    proof {
        lemma_ws_suffix_from_scan(x@, (n - to) as nat);
    }
    vstd::slice::slice_subrange(x, from, to)
}

/// Law: the trim of a byte sequence is empty exactly when the input holds
/// no non-whitespace byte; otherwise it begins and ends with a
/// non-whitespace byte and is a contiguous subrange of the input.
pub proof fn lemma_trim_ascii_properties(s: Seq<u8>)
    ensures
        (trim_ascii(s).len() == 0) <==> (forall|i: int|
            0 <= i < s.len() ==> is_ascii_ws(s[i])),
        trim_ascii(s).len() > 0 ==> !is_ascii_ws(trim_ascii(s)[0]),
        trim_ascii(s).len() > 0 ==> !is_ascii_ws(trim_ascii(s).last()),
        exists|i: int, j: int|
            0 <= i <= j <= s.len() && trim_ascii(s) == s.subrange(i, j),
{
    lemma_ws_prefix_facts(s);
    lemma_ws_suffix_facts(s);
    lemma_ws_prefix_suffix_bound(s);
    let p = ws_prefix_len(s) as int;
    let q = s.len() - ws_suffix_len(s);
    if p == s.len() {
        assert(trim_ascii(s) == s.subrange(0, 0)) by {
            assert(trim_ascii(s) =~= s.subrange(0, 0));
        }
        assert(0 <= 0 <= 0 <= s.len() && trim_ascii(s) == s.subrange(0, 0));
    } else {
        assert(trim_ascii(s) == s.subrange(p, q));
        assert(trim_ascii(s)[0] == s[p]);
        assert(trim_ascii(s).last() == s[q - 1]);
        assert(!is_ascii_ws(s[q - 1]));
        assert(0 <= p <= q <= s.len() && trim_ascii(s) == s.subrange(p, q));
    }
}

/// Law: trimming ASCII whitespace is idempotent.
pub proof fn lemma_trim_ascii_idempotent(s: Seq<u8>)
    ensures
        trim_ascii(trim_ascii(s)) == trim_ascii(s),
{
    let t = trim_ascii(s);
    lemma_trim_ascii_properties(s);
    if t.len() == 0 {
        assert(ws_prefix_len(t) == 0);
        assert(trim_ascii(t) =~= t);
    } else {
        assert(ws_prefix_len(t) == 0);
        assert(ws_suffix_len(t) == 0);
        assert(trim_ascii(t) == t.subrange(0, t.len() as int));
        assert(t.subrange(0, t.len() as int) =~= t);
    }
}

} // verus!

