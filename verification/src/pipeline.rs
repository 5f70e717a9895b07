//! The reformatting pipeline: splits a text into lines at each line feed,
//! strips leading ideographic spaces and surrounding ASCII whitespace from
//! each line, drops lines left empty, and emits each kept line followed by
//! a blank separator line.

use vstd::prelude::*;
use vstd::utf8::*;

use crate::trim::{
    ideo_prefix_len, is_ascii_ws, lemma_trim_ascii_idempotent, lemma_trim_ascii_properties,
    lemma_ws_prefix_facts, lemma_ws_prefix_suffix_bound, lemma_ws_suffix_facts,
    lemma_ws_suffix_from_scan, strip_ideo, trim_ascii, trim_ascii_whitespace, trim_start_str,
    ws_prefix_len, ws_suffix_len,
};

verus! {

/// Declares std's I/O error type, so that a failure can carry its
/// originating cause as an opaque value; nothing is assumed about it.
#[verifier::external_type_specification]
#[verifier::external_body]
pub struct ExIoError(std::io::Error);

/// A failure of a run: either an I/O failure carrying the underlying
/// cause, or an invalid invocation described by a message.
#[derive(Debug)]
pub enum Error {
    IoError { source: std::io::Error },
    ArgumentError { message: String },
}

/// The two file paths of a run: the source to read and the destination to
/// create. The destination must not exist yet when the run starts; that is
/// enforced at open time, not here.
pub struct Config<'a> {
    pub from_filename: &'a String,
    pub to_filename: &'a String,
}

/// The canonical form of one line: its UTF-8 bytes after the leading
/// ideographic spaces and then the surrounding ASCII whitespace are
/// removed.
pub open spec fn normalize_line(line: Seq<char>) -> Seq<u8> {
    trim_ascii(encode_utf8(strip_ideo(line)))
}

/// What one line contributes to the output: nothing when its canonical
/// form is empty, else that form followed by two line feeds.
pub open spec fn emit_line(line: Seq<char>) -> Seq<u8> {
    if normalize_line(line).len() == 0 {
        Seq::<u8>::empty()
    } else {
        normalize_line(line) + seq![0x0au8, 0x0au8]
    }
}

/// Index of the first line feed in a character sequence, or its length
/// when it holds none.
pub open spec fn first_nl(s: Seq<char>) -> nat
    decreases s.len(),
{
    if s.len() == 0 || s[0] == '\n' {
        0
    } else {
        1 + first_nl(s.drop_first())
    }
}

/// The output bytes for a whole text: the text is split into lines at each
/// line feed (each line excludes its terminator), and each line emits its
/// contribution in order.
pub open spec fn format_spec(s: Seq<char>) -> Seq<u8>
    decreases s.len(),
{
    if s.len() == 0 {
        Seq::<u8>::empty()
    } else if first_nl(s) < s.len() {
        emit_line(s.take(first_nl(s) as int)) + format_spec(s.skip(first_nl(s) as int + 1))
    } else {
        emit_line(s)
    }
}

proof fn lemma_first_nl_from_scan(s: Seq<char>, k: nat)
    requires
        k <= s.len(),
        forall|j: int| 0 <= j < k ==> s[j] != '\n',
        k < s.len() ==> s[k as int] == '\n',
    ensures
        first_nl(s) == k,
    decreases k,
{
    if k == 0 {
    } else {
        assert(s[0] != '\n');
        assert forall|j: int| 0 <= j < k - 1 implies s.drop_first()[j] != '\n' by {
            assert(s[j + 1] != '\n');
        }
        lemma_first_nl_from_scan(s.drop_first(), (k - 1) as nat);
    }
}

/// Applies the two trimming steps to one line and, when something is left,
/// appends it and a blank separator line to the output buffer.
fn push_line(out: &mut Vec<u8>, line: &str)
    ensures
        final(out)@ == old(out)@ + emit_line(line@),
{
    let stripped = trim_start_str(line);
    let trimmed = trim_ascii_whitespace(stripped.as_bytes());
    if trimmed.len() > 0 {
        out.extend_from_slice(trimmed);
        out.push(0x0a);
        out.push(0x0a);
        assert(out@ =~= old(out)@ + emit_line(line@));
    } else {
        assert(out@ =~= old(out)@ + emit_line(line@));
    }
}

/// Reformats a whole text: every line is stripped of leading ideographic
/// spaces and of surrounding ASCII whitespace; lines left empty vanish,
/// and every kept line is followed by a blank separator line.
pub fn format_text(x: &str) -> (out: Vec<u8>)
    ensures
        out@ == format_spec(x@),
{
    let n = x.unicode_len();
    let mut out: Vec<u8> = Vec::new();
    let mut start: usize = 0;
    let mut i: usize = 0;
    proof {
        assert(x@.skip(0) =~= x@);
        assert(out@ + format_spec(x@) =~= format_spec(x@));
    }
    while i < n
        invariant
            n == x@.len(),
            start <= i <= n,
            forall|j: int| start <= j < i ==> x@[j] != '\n',
            format_spec(x@) == out@ + format_spec(x@.skip(start as int)),
        decreases n - i,
    {
        if x.get_char(i) == '\n' {
            let line = x.substring_char(start, i);
            let ghost t = x@.skip(start as int);
            let ghost k = (i - start) as nat;
            proof {
                assert forall|j: int| 0 <= j < k implies t[j] != '\n' by {
                    assert(x@[start + j] != '\n');
                }
                lemma_first_nl_from_scan(t, k);
                assert(t.take(k as int) =~= line@);
                assert(t.skip(k as int + 1) =~= x@.skip(i as int + 1));
            }
            let ghost out0 = out@;
            push_line(&mut out, line);
            proof {
                assert(format_spec(t) == emit_line(line@) + format_spec(x@.skip(i as int + 1)));
                assert(out0 + (emit_line(line@) + format_spec(x@.skip(i as int + 1))) =~= (out0
                    + emit_line(line@)) + format_spec(x@.skip(i as int + 1)));
            }
            start = i + 1;
        }
        i = i + 1;
    }
    if start < n {
        let line = x.substring_char(start, n);
        let ghost t = x@.skip(start as int);
        proof {
            assert forall|j: int| 0 <= j < t.len() implies t[j] != '\n' by {
                assert(x@[start + j] != '\n');
            }
            lemma_first_nl_from_scan(t, t.len() as nat);
            assert(line@ =~= t);
        }
        push_line(&mut out, line);
        proof {
            assert(format_spec(t) == emit_line(line@));
        }
    } else {
        proof {
            assert(x@.skip(start as int) =~= Seq::<char>::empty());
            assert(out@ + format_spec(x@.skip(start as int)) =~= out@);
        }
    }
    out
}

/// Law: the full per-line pipeline is idempotent. The one family of inputs
/// left out: lines whose first pass ends in text that itself begins with
/// an ideographic space (exposed by whitespace that separated it from the
/// start of the line); a second pass strips that space too.
pub proof fn lemma_pipeline_idempotent(line: Seq<char>)
    requires
        ({
            let d = decode_utf8(normalize_line(line));
            d.len() == 0 || d[0] != '\u{3000}'
        }),
    ensures
        normalize_line(decode_utf8(normalize_line(line))) == normalize_line(line),
{
    let b0 = encode_utf8(strip_ideo(line));
    encode_utf8_valid_utf8(strip_ideo(line));
    let b = trim_ascii(b0);
    lemma_trim_ascii_valid_utf8(b0);
    let d = decode_utf8(b);
    assert(ideo_prefix_len(d) == 0);
    assert(strip_ideo(d) =~= d);
    decode_utf8_encode_utf8(b);
    assert(encode_utf8(strip_ideo(d)) == b);
    lemma_trim_ascii_idempotent(b0);
}

/// Trimming leading ASCII whitespace from a valid UTF-8 byte sequence
/// leaves a valid UTF-8 byte sequence: whitespace bytes are whole one-byte
/// encodings, so removing them never splits a character.
proof fn lemma_trim_front_valid_utf8(s: Seq<u8>)
    requires
        valid_utf8(s),
    ensures
        valid_utf8(s.skip(ws_prefix_len(s) as int)),
    decreases s.len(),
{
    if s.len() == 0 || !is_ascii_ws(s[0]) {
        assert(s.skip(0) =~= s);
    } else {
        assert(is_leading_byte_width_1(s[0]));
        assert(length_of_first_scalar(s) == 1);
        assert(pop_first_scalar(s) =~= s.drop_first());
        assert(valid_utf8(s.drop_first()));
        lemma_trim_front_valid_utf8(s.drop_first());
        lemma_ws_prefix_facts(s);
        lemma_ws_prefix_facts(s.drop_first());
        assert(ws_prefix_len(s) == 1 + ws_prefix_len(s.drop_first()));
        assert(s.skip(ws_prefix_len(s) as int) =~= s.drop_first().skip(
            ws_prefix_len(s.drop_first()) as int,
        ));
    }
}

/// Trimming trailing ASCII whitespace from a valid UTF-8 byte sequence
/// leaves a valid UTF-8 byte sequence: a whitespace byte is never a
/// continuation byte, so the cut falls on a character boundary.
proof fn lemma_trim_back_valid_utf8(s: Seq<u8>)
    requires
        valid_utf8(s),
    ensures
        valid_utf8(s.take(s.len() - ws_suffix_len(s))),
    decreases s.len(),
{
    if s.len() == 0 || !is_ascii_ws(s.last()) {
        assert(s.take(s.len() as int) =~= s);
    } else {
        assert(!is_continuation_byte(s.last()));
        is_char_boundary_iff_not_is_continuation_byte(s, s.len() - 1);
        valid_utf8_split(s, s.len() - 1);
        assert(s.subrange(0, s.len() - 1) =~= s.drop_last());
        lemma_trim_back_valid_utf8(s.drop_last());
        let t = s.drop_last();
        lemma_ws_suffix_facts(s);
        lemma_ws_suffix_facts(t);
        assert(ws_suffix_len(s) == 1 + ws_suffix_len(t));
        assert(s.take(s.len() - ws_suffix_len(s)) =~= t.take(t.len() - ws_suffix_len(t)));
    }
}

proof fn lemma_trim_ascii_valid_utf8(s: Seq<u8>)
    requires
        valid_utf8(s),
    ensures
        valid_utf8(trim_ascii(s)),
{
    lemma_ws_prefix_facts(s);
    lemma_ws_suffix_facts(s);
    lemma_trim_ascii_properties(s);
    if ws_prefix_len(s) == s.len() {
        assert(valid_utf8(Seq::<u8>::empty()));
    } else {
        let p = ws_prefix_len(s) as int;
        let t = s.skip(p);
        lemma_trim_front_valid_utf8(s);
        let k = ws_suffix_len(s);
        assert forall|j: int| t.len() - k <= j < t.len() implies is_ascii_ws(t[j]) by {
            assert(is_ascii_ws(s[j + p]));
        }
        lemma_ws_prefix_suffix_bound(s);
        assert(k < t.len());
        assert(!is_ascii_ws(t[t.len() - k - 1])) by {
            assert(t[t.len() - k - 1] == s[s.len() - k - 1]);
        }
        lemma_ws_suffix_from_scan(t, k);
        lemma_trim_back_valid_utf8(t);
        assert(trim_ascii(s) =~= t.take(t.len() - ws_suffix_len(t)));
    }
}

/// True of the characters whose one-byte UTF-8 encodings are the ASCII
/// whitespace bytes.
pub open spec fn is_ascii_ws_char(c: char) -> bool {
    c == ' ' || c == '\t' || c == '\n' || c == '\u{b}' || c == '\u{c}' || c == '\r'
}

/// A line already in the pipeline's output form: non-empty, free of line
/// feeds, not beginning with an ideographic space, and with no ASCII
/// whitespace at either end.
pub open spec fn is_normal_line(c: Seq<char>) -> bool {
    &&& c.len() > 0
    &&& c[0] != '\u{3000}'
    &&& !is_ascii_ws_char(c[0])
    &&& !is_ascii_ws_char(c.last())
    &&& forall|j: int| 0 <= j < c.len() ==> c[j] != '\n'
}

/// A text in the pipeline's output form: each line followed by one blank
/// line.
pub open spec fn join_normal(cs: Seq<Seq<char>>) -> Seq<char>
    decreases cs.len(),
{
    if cs.len() == 0 {
        Seq::<char>::empty()
    } else {
        cs.first() + seq!['\n', '\n'] + join_normal(cs.drop_first())
    }
}

/// Encoding a concatenation encodes each part in turn.
proof fn lemma_encode_utf8_concat(a: Seq<char>, b: Seq<char>)
    ensures
        encode_utf8(a + b) == encode_utf8(a) + encode_utf8(b),
    decreases a.len(),
{
    if a.len() == 0 {
        assert(a + b =~= b);
        assert(encode_utf8(a) + encode_utf8(b) =~= encode_utf8(b));
    } else {
        assert((a + b)[0] == a[0]);
        assert((a + b).drop_first() =~= a.drop_first() + b);
        lemma_encode_utf8_concat(a.drop_first(), b);
        assert(encode_utf8(a + b) =~= encode_utf8(a) + encode_utf8(b));
    }
}

/// The encoding of one character is non-empty, and begins and ends with a
/// whitespace byte only when the character itself is ASCII whitespace.
proof fn lemma_encode_scalar_ends(c: char)
    ensures
        encode_scalar(c as u32).len() > 0,
        !is_ascii_ws_char(c) ==> !is_ascii_ws(encode_scalar(c as u32)[0]),
        !is_ascii_ws_char(c) ==> !is_ascii_ws(encode_scalar(c as u32).last()),
{
    char_is_scalar(c);
    let u = c as u32;
    if has_width_1_encoding(u) {
        assert(u as u8 == leading_byte_width_1(u)) by (bit_vector)
            requires
                has_width_1_encoding(u),
        ;
        if is_ascii_ws(encode_scalar(u)[0]) && !is_ascii_ws_char(c) {
            assert(u < 0x80);
            assert(u == (u as u8) as u32) by (bit_vector)
                requires
                    u < 0x80,
            ;
            char_u32_cast(c, u);
            if u == 0x20 {
                char_u32_cast(' ', u);
            } else if u == 0x09 {
                char_u32_cast('\t', u);
            } else if u == 0x0a {
                char_u32_cast('\n', u);
            } else if u == 0x0b {
                char_u32_cast('\u{b}', u);
            } else if u == 0x0c {
                char_u32_cast('\u{c}', u);
            } else {
                char_u32_cast('\r', u);
            }
            assert(false);
        }
    } else if has_width_2_encoding(u) {
        assert(leading_byte_width_2(u) >= 0xC0) by (bit_vector);
        assert(last_continuation_byte(u) >= 0x80) by (bit_vector);
    } else if has_width_3_encoding(u) {
        assert(leading_byte_width_3(u) >= 0xE0) by (bit_vector);
        assert(last_continuation_byte(u) >= 0x80) by (bit_vector);
    } else {
        assert(leading_byte_width_4(u) >= 0xF0) by (bit_vector);
        assert(last_continuation_byte(u) >= 0x80) by (bit_vector);
    }
}

/// The encoding of a non-empty line is non-empty; its first and last
/// bytes are whitespace only when the line's first and last characters
/// are.
#[verifier::rlimit(30)]
proof fn lemma_encode_line_ends(c: Seq<char>)
    requires
        c.len() > 0,
    ensures
        encode_utf8(c).len() > 0,
        !is_ascii_ws_char(c[0]) ==> !is_ascii_ws(encode_utf8(c)[0]),
        !is_ascii_ws_char(c.last()) ==> !is_ascii_ws(encode_utf8(c).last()),
{
    lemma_encode_scalar_ends(c[0]);
    assert(encode_utf8(c)[0] == encode_scalar(c[0] as u32)[0]);
    let a = c.drop_last();
    let b = seq![c.last()];
    assert(c =~= a + b);
    lemma_encode_utf8_concat(a, b);
    lemma_encode_scalar_ends(c.last());
    assert(b.drop_first() =~= Seq::<char>::empty());
    assert(encode_utf8(Seq::<char>::empty()) =~= Seq::<u8>::empty());
    assert(encode_utf8(b) == encode_scalar(c.last() as u32) + encode_utf8(b.drop_first()));
    assert(encode_utf8(b) =~= encode_scalar(c.last() as u32));
    assert(encode_utf8(c) == encode_utf8(a) + encode_utf8(b));
    assert(encode_utf8(c).last() == encode_utf8(b).last());
}

/// On a line already in output form both trimming steps are the identity:
/// its canonical form is exactly its UTF-8 encoding.
proof fn lemma_normalize_normal(c: Seq<char>)
    requires
        is_normal_line(c),
    ensures
        normalize_line(c) == encode_utf8(c),
        normalize_line(c).len() > 0,
{
    assert(ideo_prefix_len(c) == 0);
    assert(strip_ideo(c) =~= c);
    lemma_encode_line_ends(c);
    let e = encode_utf8(c);
    assert(ws_prefix_len(e) == 0);
    assert(ws_suffix_len(e) == 0);
    assert(trim_ascii(e) == e.subrange(0, e.len() as int));
    assert(e.subrange(0, e.len() as int) =~= e);
}

/// The line feed encodes to the single byte 0x0a.
proof fn lemma_encode_nl()
    ensures
        encode_scalar('\n' as u32) == seq![0x0au8],
{
    assert('\n' as u32 == 10);
    assert(has_width_1_encoding(10));
    assert(leading_byte_width_1(10u32) == 10u8) by (bit_vector);
    assert(encode_scalar(10u32) =~= seq![0x0au8]);
}

/// The empty line contributes nothing to the output.
proof fn lemma_emit_empty()
    ensures
        emit_line(Seq::<char>::empty()) == Seq::<u8>::empty(),
{
    let e = Seq::<char>::empty();
    assert(ideo_prefix_len(e) == 0);
    assert(strip_ideo(e) =~= e);
    assert(encode_utf8(e) =~= Seq::<u8>::empty());
    assert(normalize_line(e).len() == 0);
}

/// Law: the pipeline reproduces text that is already in its output form.
/// For lines that are non-empty, free of line feeds, do not begin with an
/// ideographic space and carry no ASCII whitespace at either end,
/// formatting the joined text yields exactly that text's own UTF-8 bytes.
pub proof fn lemma_round_trip(cs: Seq<Seq<char>>)
    requires
        forall|i: int| 0 <= i < cs.len() ==> is_normal_line(#[trigger] cs[i]),
    ensures
        format_spec(join_normal(cs)) == encode_utf8(join_normal(cs)),
    decreases cs.len(),
{
    if cs.len() == 0 {
        assert(format_spec(join_normal(cs)) =~= encode_utf8(join_normal(cs)));
    } else {
        let c = cs.first();
        assert(is_normal_line(c));
        let rest = join_normal(cs.drop_first());
        let sep = seq!['\n', '\n'];
        let t = c + sep + rest;
        assert(join_normal(cs) == t);
        let k = c.len() as int;

        // the first line ends at the first line feed
        assert forall|j: int| 0 <= j < k implies t[j] != '\n' by {
            assert(t[j] == c[j]);
        }
        assert(t[k] == '\n');
        lemma_first_nl_from_scan(t, c.len());
        assert(first_nl(t) < t.len());

        // the remainder after that line feed: one empty line, then the rest
        let t2 = t.skip(k + 1);
        assert(t2 =~= seq!['\n'] + rest);
        assert(t.take(k) =~= c);
        assert(format_spec(t) == emit_line(c) + format_spec(t2));

        assert(t2[0] == '\n');
        lemma_first_nl_from_scan(t2, 0);
        assert(t2.len() > 0);
        assert(t2.take(0) =~= Seq::<char>::empty());
        assert(t2.skip(1) =~= rest);
        lemma_emit_empty();
        assert(format_spec(t2) == emit_line(Seq::<char>::empty()) + format_spec(rest));
        assert(format_spec(t2) =~= format_spec(rest));

        // each piece of the output is the encoding of the matching text
        lemma_normalize_normal(c);
        assert(emit_line(c) == encode_utf8(c) + seq![0x0au8, 0x0au8]);
        lemma_round_trip(cs.drop_first());

        lemma_encode_utf8_concat(c + sep, rest);
        lemma_encode_utf8_concat(c, sep);
        lemma_encode_nl();
        let nl1 = seq!['\n'];
        assert(sep.drop_first() =~= nl1);
        assert(nl1.drop_first() =~= Seq::<char>::empty());
        assert(encode_utf8(Seq::<char>::empty()) =~= Seq::<u8>::empty());
        assert(encode_utf8(nl1) == encode_scalar('\n' as u32) + encode_utf8(nl1.drop_first()));
        assert(encode_utf8(nl1) =~= seq![0x0au8]);
        assert(encode_utf8(sep) == encode_scalar('\n' as u32) + encode_utf8(sep.drop_first()));
        assert(encode_utf8(sep) =~= seq![0x0au8, 0x0au8]);
        assert(encode_utf8(t) == encode_utf8(c + sep) + encode_utf8(rest));
        assert(format_spec(t) =~= encode_utf8(t));
    }
}

} // verus!
