//! Parsing of the HTTP CONNECT request head.
//!
//! The grammar is deliberately narrow: exactly one CONNECT request line,
//! zero or more header lines that are skipped without interpretation, and
//! a terminating blank line, with no bytes following it.
//!
//! The specification is a byte-level state machine: `head_scan` folds
//! `head_step` over the input, and the three outcomes (complete, malformed,
//! incomplete) are read off the final state.  `parse_head` is proved to
//! classify its input exactly as `head_scan` does.

use vstd::prelude::*;

verus! {

/// Bytes acceptable inside a hostname token: ASCII letters, digits,
/// '.' and '-'.
pub open spec fn is_host_byte(b: u8) -> bool {
    (97 <= b && b <= 122)  // 'a'..'z'
    || (65 <= b && b <= 90)  // 'A'..'Z'
    || (48 <= b && b <= 57)  // '0'..'9'
    || b == 46  // '.'
    || b == 45  // '-'
}

/// ASCII decimal digits.
pub open spec fn is_digit_byte(b: u8) -> bool {
    48 <= b && b <= 57
}

/// The literal request-line prefix `"CONNECT "`.
pub open spec fn method_bytes() -> Seq<u8> {
    seq![67u8, 79u8, 78u8, 78u8, 69u8, 67u8, 84u8, 32u8]
}

/// The literal request-line suffix `"HTTP/1.1\r\n"` that follows the port
/// and a single space.
pub open spec fn version_bytes() -> Seq<u8> {
    seq![72u8, 84u8, 84u8, 80u8, 47u8, 49u8, 46u8, 49u8, 13u8, 10u8]
}

/// The state of the head scanner after consuming some prefix of the input.
///
/// The states follow the phases of the request head in order; `Failed` is
/// absorbing, and `Done` moves to `Failed` on any further byte, since a
/// CONNECT head must not be followed by extra bytes.
pub enum HeadState {
    /// Inside the literal `"CONNECT "`; `matched` bytes of it are consumed.
    Method { matched: nat },
    /// Inside the hostname token; `host` holds the bytes consumed so far.
    Host { host: Seq<u8> },
    /// Inside the port number; `value` is the numeric value so far.
    Port { host: Seq<u8>, seen_digit: bool, value: nat },
    /// Inside the literal `"HTTP/1.1\r\n"`; `matched` bytes of it are consumed.
    Version { host: Seq<u8>, value: nat, matched: nat },
    /// At the start of a header line (or of the terminating blank line).
    HeaderStart { host: Seq<u8>, value: nat },
    /// Inside a header line, at least one byte consumed.
    HeaderBody { host: Seq<u8>, value: nat },
    /// Consumed the CR that ends a header line.
    HeaderCr { host: Seq<u8>, value: nat },
    /// Consumed the CR of the terminating blank line.
    FinalCr { host: Seq<u8>, value: nat },
    /// The full head is consumed.
    Done { host: Seq<u8>, value: nat },
    /// The input can no longer match the grammar.
    Failed,
}

/// One transition of the head scanner on byte `b`.
pub open spec fn head_step(st: HeadState, b: u8) -> HeadState {
    match st {
        HeadState::Method { matched } => if matched < 8 && b == method_bytes()[matched as int] {
            if matched == 7 {
                HeadState::Host { host: Seq::empty() }
            } else {
                HeadState::Method { matched: (matched + 1) as nat }
            }
        } else {
            HeadState::Failed
        },
        HeadState::Host { host } => if is_host_byte(b) {
            HeadState::Host { host: host.push(b) }
        } else if b == 58 && host.len() >= 1 {  // ':'
            HeadState::Port { host, seen_digit: false, value: 0 }
        } else {
            HeadState::Failed
        },
        HeadState::Port { host, seen_digit, value } => if is_digit_byte(b) {
            if value * 10 + (b - 48) > 65535 {
                HeadState::Failed
            } else {
                HeadState::Port {
                    host,
                    seen_digit: true,
                    value: (value * 10 + (b - 48)) as nat,
                }
            }
        } else if b == 32 && seen_digit {  // ' '
            HeadState::Version { host, value, matched: 0 }
        } else {
            HeadState::Failed
        },
        HeadState::Version { host, value, matched } => if matched < 10 && b == version_bytes()[matched as int] {
            if matched == 9 {
                HeadState::HeaderStart { host, value }
            } else {
                HeadState::Version { host, value, matched: (matched + 1) as nat }
            }
        } else {
            HeadState::Failed
        },
        HeadState::HeaderStart { host, value } => if b == 13 {
            HeadState::FinalCr { host, value }
        } else if b == 10 {
            HeadState::Failed
        } else {
            HeadState::HeaderBody { host, value }
        },
        HeadState::HeaderBody { host, value } => if b == 13 {
            HeadState::HeaderCr { host, value }
        } else if b == 10 {
            HeadState::Failed
        } else {
            HeadState::HeaderBody { host, value }
        },
        HeadState::HeaderCr { host, value } => if b == 10 {
            HeadState::HeaderStart { host, value }
        } else {
            HeadState::Failed
        },
        HeadState::FinalCr { host, value } => if b == 10 {
            HeadState::Done { host, value }
        } else {
            HeadState::Failed
        },
        HeadState::Done { .. } => HeadState::Failed,
        HeadState::Failed => HeadState::Failed,
    }
}

/// The state of the head scanner after consuming all of `s`.
pub open spec fn head_scan(s: Seq<u8>) -> HeadState
    decreases s.len(),
{
    if s.len() == 0 {
        HeadState::Method { matched: 0 }
    } else {
        head_step(head_scan(s.drop_last()), s.last())
    }
}

/// `s` is a full, well-formed CONNECT head with nothing after it.
pub open spec fn head_complete(s: Seq<u8>) -> bool {
    head_scan(s) is Done
}

/// `s` can no longer be extended to a well-formed CONNECT head.
pub open spec fn head_malformed(s: Seq<u8>) -> bool {
    head_scan(s) is Failed
}

/// `s` is a proper prefix of the grammar: more bytes are needed.
pub open spec fn head_incomplete(s: Seq<u8>) -> bool {
    !head_complete(s) && !head_malformed(s)
}

/// The hostname bytes of a complete head.
pub open spec fn head_host(s: Seq<u8>) -> Seq<u8> {
    head_scan(s)->Done_host
}

/// The port value of a complete head.
pub open spec fn head_port(s: Seq<u8>) -> nat {
    head_scan(s)->Done_value
}

/// The characters spelled by a sequence of ASCII bytes.
pub open spec fn ascii_chars_of(s: Seq<u8>) -> Seq<char> {
    s.map_values(|b: u8| b as char)
}

/// A well-formed hostname token: one or more bytes of its alphabet.
pub open spec fn valid_host_bytes(h: Seq<u8>) -> bool {
    h.len() >= 1 && (forall|i: int| 0 <= i < h.len() ==> is_host_byte(#[trigger] h[i]))
}

/// Every byte of `d` is an ASCII decimal digit.
pub open spec fn all_digits(d: Seq<u8>) -> bool {
    forall|i: int| 0 <= i < d.len() ==> is_digit_byte(#[trigger] d[i])
}

/// The number spelled by a string of decimal digits.
pub open spec fn digits_val(d: Seq<u8>) -> nat
    decreases d.len(),
{
    if d.len() == 0 {
        0
    } else {
        (10 * digits_val(d.drop_last()) + (d.last() - 48)) as nat
    }
}

/// `s` is a sequence of zero or more complete header lines, each one or
/// more bytes free of CR and LF, terminated by CRLF.
pub open spec fn valid_header_block(s: Seq<u8>) -> bool
    decreases s.len(), 1int,
{
    if s.len() == 0 {
        true
    } else {
        s[0] != 13 && s[0] != 10 && valid_header_line_rest(s.skip(1))
    }
}

/// `s` continues and terminates one header line, then holds further
/// complete header lines.
pub open spec fn valid_header_line_rest(s: Seq<u8>) -> bool
    decreases s.len(), 0int,
{
    if s.len() == 0 {
        false
    } else if s[0] == 13 {
        s.len() >= 2 && s[1] == 10 && valid_header_block(s.skip(2))
    } else if s[0] == 10 {
        false
    } else {
        valid_header_line_rest(s.skip(1))
    }
}

/// Why a head was rejected as malformed.
#[derive(Clone, Copy, Debug, PartialEq, Eq)]
pub enum ParseError {
    /// The request line does not begin with `"CONNECT "`.
    BadMethod,
    /// The hostname token is empty or holds a byte outside its alphabet.
    BadHost,
    /// The port is empty or ends in an unexpected byte.
    BadPort,
    /// The port value does not fit in 16 bits.
    PortOutOfRange,
    /// The request line does not end with `" HTTP/1.1"` and CRLF.
    BadVersion,
    /// A header line breaks CRLF sequencing.
    BadHeader,
    /// Bytes follow the blank line that ends the head.
    ExtraBytes,
}

/// The outcome of parsing an accumulated request-head buffer.
#[derive(Debug)]
pub enum ParseHeadResult {
    /// Successful parse of a full CONNECT head.
    Connect { host: String, port: u16 },
    /// Unrecoverable error: the buffer cannot match the grammar.
    Malformed(ParseError),
    /// Valid so far, but incomplete.
    Incomplete,
}

impl PartialEq for ParseHeadResult {
    fn eq(&self, other: &Self) -> (r: bool) {
        match (self, other) {
            (ParseHeadResult::Incomplete, ParseHeadResult::Incomplete) => true,
            (
                ParseHeadResult::Connect { host: h1, port: p1 },
                ParseHeadResult::Connect { host: h2, port: p2 },
            ) => *h1 == *h2 && *p1 == *p2,
            // errors always compare inequal: a malformed outcome is a
            // terminal condition rather than a comparable value
            _ => false,
        }
    }
}

impl vstd::std_specs::cmp::PartialEqSpecImpl for ParseHeadResult {
    open spec fn obeys_eq_spec() -> bool {
        true
    }

    open spec fn eq_spec(&self, other: &Self) -> bool {
        match (self, other) {
            (ParseHeadResult::Incomplete, ParseHeadResult::Incomplete) => true,
            (
                ParseHeadResult::Connect { host: h1, port: p1 },
                ParseHeadResult::Connect { host: h2, port: p2 },
            ) => h1@ == h2@ && p1 == p2,
            _ => false,
        }
    }
}

/// Relies on `String::from_utf8`: ASCII bytes decode to the characters
/// with the same code points.  The ASCII precondition makes the input
/// valid UTF-8, so the decode cannot fail.
#[verifier::external_body]
fn ascii_bytes_to_string(bytes: Vec<u8>) -> (s: String)
    requires
        forall|i: int| 0 <= i < bytes@.len() ==> bytes@[i] < 128,
    ensures
        s@ == ascii_chars_of(bytes@),
{
    match String::from_utf8(bytes) {
        Ok(s) => s,
        Result::Err(_) => String::new(),
    }
}

/// Scanning one more byte moves the state by one `head_step`.
proof fn lemma_scan_take_succ(s: Seq<u8>, i: int)
    requires
        0 <= i < s.len(),
    ensures
        head_scan(s.take(i + 1)) == head_step(head_scan(s.take(i)), s[i]),
{
    assert(s.take(i + 1).drop_last() =~= s.take(i));
    assert(s.take(i + 1).last() == s[i]);
}

/// Once a prefix is malformed, no continuation recovers: `Failed` is an
/// absorbing state of the scanner.
pub proof fn lemma_malformed_absorbs(s: Seq<u8>, k: int)
    requires
        0 <= k <= s.len(),
        head_malformed(s.take(k)),
    ensures
        head_malformed(s),
    decreases s.len() - k,
{
    if k == s.len() {
        assert(s.take(k) =~= s);
    } else {
        lemma_scan_take_succ(s, k);
        lemma_malformed_absorbs(s, k + 1);
    }
}

/// Parser completeness monotonicity: every proper prefix of a complete
/// head parses as incomplete.  Together with `parse_head` being a pure
/// function of its buffer, this says that feeding a valid request in two
/// arbitrary pieces yields `Incomplete` on the first piece and the same
/// final result once the buffer is whole.
pub proof fn lemma_head_prefix_incomplete(s: Seq<u8>, k: int)
    requires
        head_complete(s),
        0 <= k < s.len(),
    ensures
        head_incomplete(s.take(k)),
{
    if head_malformed(s.take(k)) {
        lemma_malformed_absorbs(s, k);
    }
    if head_complete(s.take(k)) {
        // one byte past a complete head moves the scanner to `Failed`,
        // which then absorbs, contradicting completeness of the whole
        lemma_scan_take_succ(s, k);
        lemma_malformed_absorbs(s, k + 1);
    }
}

/// The scanner run from an arbitrary state over `s`.
pub open spec fn head_run(st: HeadState, s: Seq<u8>) -> HeadState
    decreases s.len(),
{
    if s.len() == 0 {
        st
    } else {
        head_step(head_run(st, s.drop_last()), s.last())
    }
}

/// Scanning the whole input is running the scanner from its initial state.
proof fn lemma_scan_is_run(s: Seq<u8>)
    ensures
        head_scan(s) == head_run(HeadState::Method { matched: 0 }, s),
    decreases s.len(),
{
    if s.len() > 0 {
        lemma_scan_is_run(s.drop_last());
    }
}

/// Running over a concatenation is running over each part in turn.
proof fn lemma_run_app(st: HeadState, a: Seq<u8>, b: Seq<u8>)
    ensures
        head_run(st, a + b) == head_run(head_run(st, a), b),
    decreases b.len(),
{
    if b.len() == 0 {
        assert(a + b =~= a);
    } else {
        assert((a + b).drop_last() =~= a + b.drop_last());
        lemma_run_app(st, a, b.drop_last());
        assert((a + b).last() == b.last());
    }
}

/// Running over a single byte is one step.
proof fn lemma_run_single(st: HeadState, b: u8)
    ensures
        head_run(st, seq![b]) == head_step(st, b),
{
    assert(seq![b].drop_last() =~= Seq::<u8>::empty());
    assert(head_run(st, Seq::<u8>::empty()) == st);
    assert(seq![b].last() == b);
}

/// Running over a non-empty sequence starts with one step on its head.
proof fn lemma_run_front(st: HeadState, s: Seq<u8>)
    requires
        s.len() > 0,
    ensures
        head_run(st, s) == head_run(head_step(st, s[0]), s.skip(1)),
{
    assert(s =~= seq![s[0]] + s.skip(1));
    lemma_run_app(st, seq![s[0]], s.skip(1));
    lemma_run_single(st, s[0]);
}

/// The method literal carries the initial state to the hostname state.
proof fn lemma_run_method(i: int)
    requires
        0 <= i <= 8,
    ensures
        head_run(HeadState::Method { matched: 0 }, method_bytes().take(i)) == if i < 8 {
            HeadState::Method { matched: i as nat }
        } else {
            HeadState::Host { host: Seq::empty() }
        },
    decreases i,
{
    if i == 0 {
        assert(method_bytes().take(0).len() == 0);
    } else {
        lemma_run_method(i - 1);
        assert(method_bytes().take(i).drop_last() =~= method_bytes().take(i - 1));
        assert(method_bytes().take(i).last() == method_bytes()[i - 1]);
    }
}

/// A run of hostname bytes extends the collected hostname.
proof fn lemma_run_host(h0: Seq<u8>, h: Seq<u8>)
    requires
        forall|i: int| 0 <= i < h.len() ==> is_host_byte(#[trigger] h[i]),
    ensures
        head_run(HeadState::Host { host: h0 }, h) == (HeadState::Host { host: h0 + h }),
    decreases h.len(),
{
    if h.len() == 0 {
        assert(h0 + h =~= h0);
    } else {
        lemma_run_host(h0, h.drop_last());
        assert(is_host_byte(h.last()));
        assert((h0 + h.drop_last()).push(h.last()) =~= h0 + h);
    }
}

/// The value of a digit string bounds the value of each of its prefixes.
proof fn lemma_digits_val_prefix(d: Seq<u8>)
    requires
        d.len() > 0,
        all_digits(d),
    ensures
        digits_val(d.drop_last()) <= digits_val(d),
{
    assert(is_digit_byte(d[d.len() - 1]));
    assert(d.last() == d[d.len() - 1]);
}

/// A digit run accumulates its numeric value, as long as that value
/// stays within 16 bits.
proof fn lemma_run_digits(h: Seq<u8>, d: Seq<u8>)
    requires
        all_digits(d),
        digits_val(d) <= 65535,
    ensures
        head_run(HeadState::Port { host: h, seen_digit: false, value: 0 }, d)
            == (HeadState::Port { host: h, seen_digit: d.len() > 0, value: digits_val(d) }),
    decreases d.len(),
{
    if d.len() > 0 {
        lemma_digits_val_prefix(d);
        assert(all_digits(d.drop_last()));
        lemma_run_digits(h, d.drop_last());
        assert(is_digit_byte(d.last()));
    }
}

/// The version literal carries the scanner to the header section.
proof fn lemma_run_version(h: Seq<u8>, v: nat, i: int)
    requires
        0 <= i <= 10,
    ensures
        head_run(HeadState::Version { host: h, value: v, matched: 0 }, version_bytes().take(i))
            == if i < 10 {
            HeadState::Version { host: h, value: v, matched: i as nat }
        } else {
            HeadState::HeaderStart { host: h, value: v }
        },
    decreases i,
{
    if i == 0 {
        assert(version_bytes().take(0).len() == 0);
    } else {
        lemma_run_version(h, v, i - 1);
        assert(version_bytes().take(i).drop_last() =~= version_bytes().take(i - 1));
        assert(version_bytes().take(i).last() == version_bytes()[i - 1]);
    }
}

/// A block of complete header lines returns the scanner to the start of
/// a line, unchanged.
proof fn lemma_run_header_block(h: Seq<u8>, v: nat, hs: Seq<u8>)
    requires
        valid_header_block(hs),
    ensures
        head_run(HeadState::HeaderStart { host: h, value: v }, hs) == (HeadState::HeaderStart {
            host: h,
            value: v,
        }),
    decreases hs.len(), 1int,
{
    if hs.len() > 0 {
        lemma_run_front(HeadState::HeaderStart { host: h, value: v }, hs);
        lemma_run_header_line_rest(h, v, hs.skip(1));
    }
}

/// The rest of one header line, its CRLF, and any further lines return
/// the scanner to the start of a line.
proof fn lemma_run_header_line_rest(h: Seq<u8>, v: nat, s: Seq<u8>)
    requires
        valid_header_line_rest(s),
    ensures
        head_run(HeadState::HeaderBody { host: h, value: v }, s) == (HeadState::HeaderStart {
            host: h,
            value: v,
        }),
    decreases s.len(), 0int,
{
    lemma_run_front(HeadState::HeaderBody { host: h, value: v }, s);
    if s[0] == 13 {
        lemma_run_front(HeadState::HeaderCr { host: h, value: v }, s.skip(1));
        assert(s.skip(1)[0] == s[1]);
        assert(s.skip(1).skip(1) =~= s.skip(2));
        lemma_run_header_block(h, v, s.skip(2));
    } else {
        lemma_run_header_line_rest(h, v, s.skip(1));
    }
}

/// `line` is free of CR and LF.
pub open spec fn no_crlf(line: Seq<u8>) -> bool {
    forall|i: int| 0 <= i < line.len() ==> (#[trigger] line[i]) != 13 && line[i] != 10
}

/// A CRLF-free line followed by CRLF continues and terminates a header
/// line.
proof fn lemma_line_rest_of_line(line: Seq<u8>)
    requires
        no_crlf(line),
    ensures
        valid_header_line_rest(line + seq![13u8, 10u8]),
    decreases line.len(),
{
    let s = line + seq![13u8, 10u8];
    if line.len() == 0 {
        assert(s =~= seq![13u8, 10u8]);
        assert(s[0] == 13 && s[1] == 10);
        assert(s.skip(2) =~= Seq::<u8>::empty());
        assert(valid_header_block(s.skip(2)));
    } else {
        assert(s[0] == line[0]);
        assert(line[0] != 13 && line[0] != 10);
        assert(s.skip(1) =~= line.skip(1) + seq![13u8, 10u8]);
        assert(no_crlf(line.skip(1)));
        lemma_line_rest_of_line(line.skip(1));
    }
}

/// Appending one complete header line keeps a header block valid.
proof fn lemma_header_block_snoc(hs: Seq<u8>, line: Seq<u8>)
    requires
        valid_header_block(hs),
        line.len() >= 1,
        no_crlf(line),
    ensures
        valid_header_block(hs + line + seq![13u8, 10u8]),
    decreases hs.len(), 1int,
{
    let s = hs + line + seq![13u8, 10u8];
    if hs.len() == 0 {
        assert(s =~= line + seq![13u8, 10u8]);
        assert(s[0] == line[0] && line[0] != 13 && line[0] != 10);
        assert(s.skip(1) =~= line.skip(1) + seq![13u8, 10u8]);
        assert(no_crlf(line.skip(1)));
        lemma_line_rest_of_line(line.skip(1));
    } else {
        assert(s[0] == hs[0]);
        assert(s.skip(1) =~= hs.skip(1) + line + seq![13u8, 10u8]);
        lemma_header_line_rest_snoc(hs.skip(1), line);
    }
}

/// Appending one complete header line after the rest of a line keeps the
/// continuation valid.
proof fn lemma_header_line_rest_snoc(s0: Seq<u8>, line: Seq<u8>)
    requires
        valid_header_line_rest(s0),
        line.len() >= 1,
        no_crlf(line),
    ensures
        valid_header_line_rest(s0 + line + seq![13u8, 10u8]),
    decreases s0.len(), 0int,
{
    let s = s0 + line + seq![13u8, 10u8];
    assert(s[0] == s0[0]);
    if s0[0] == 13 {
        assert(s[1] == s0[1]);
        assert(s.skip(2) =~= s0.skip(2) + line + seq![13u8, 10u8]);
        lemma_header_block_snoc(s0.skip(2), line);
    } else {
        assert(s.skip(1) =~= s0.skip(1) + line + seq![13u8, 10u8]);
        lemma_header_line_rest_snoc(s0.skip(1), line);
    }
}

/// `s` spells the full CONNECT grammar, decomposed into its hostname
/// token, its port digit run, and its block of header lines:
/// `"CONNECT " hostname ":" port " HTTP/1.1" CRLF headers CRLF`.
pub open spec fn is_connect_head(s: Seq<u8>, host: Seq<u8>, digits: Seq<u8>, hdrs: Seq<u8>) -> bool {
    s == method_bytes() + host + seq![58u8] + digits + seq![32u8] + version_bytes() + hdrs
        + seq![13u8, 10u8] && valid_host_bytes(host) && all_digits(digits) && digits.len() >= 1
        && digits_val(digits) <= 65535 && valid_header_block(hdrs)
}

/// Grammar completeness: every byte sequence of the CONNECT grammar's
/// shape, with a well-formed hostname, a digit-run port whose value fits
/// 16 bits, and complete header lines, is accepted as a complete head
/// carrying exactly that hostname and port value.
pub proof fn lemma_grammatical_head_completes(
    s: Seq<u8>,
    host: Seq<u8>,
    digits: Seq<u8>,
    hdrs: Seq<u8>,
)
    requires
        is_connect_head(s, host, digits, hdrs),
    ensures
        head_complete(s),
        head_host(s) == host,
        head_port(s) == digits_val(digits),
{
    let p1 = method_bytes();
    let p2 = p1 + host;
    let p3 = p2 + seq![58u8];
    let p4 = p3 + digits;
    let p5 = p4 + seq![32u8];
    let p6 = p5 + version_bytes();
    let p7 = p6 + hdrs;
    assert(s == p7 + seq![13u8, 10u8]);
    let init = HeadState::Method { matched: 0 };
    lemma_scan_is_run(s);

    lemma_run_method(8);
    assert(method_bytes().take(8) =~= method_bytes());
    assert(head_run(init, p1) == (HeadState::Host { host: Seq::empty() }));

    lemma_run_app(init, p1, host);
    lemma_run_host(Seq::empty(), host);
    assert(Seq::empty() + host =~= host);
    assert(head_run(init, p2) == (HeadState::Host { host }));

    lemma_run_app(init, p2, seq![58u8]);
    lemma_run_single(HeadState::Host { host }, 58);
    assert(!is_host_byte(58));
    assert(head_run(init, p3) == (HeadState::Port { host, seen_digit: false, value: 0 }));

    lemma_run_app(init, p3, digits);
    lemma_run_digits(host, digits);
    assert(head_run(init, p4) == (HeadState::Port {
        host,
        seen_digit: true,
        value: digits_val(digits),
    }));

    lemma_run_app(init, p4, seq![32u8]);
    lemma_run_single(
        HeadState::Port { host, seen_digit: true, value: digits_val(digits) },
        32,
    );
    assert(head_run(init, p5) == (HeadState::Version {
        host,
        value: digits_val(digits),
        matched: 0,
    }));

    lemma_run_app(init, p5, version_bytes());
    lemma_run_version(host, digits_val(digits), 10);
    assert(version_bytes().take(10) =~= version_bytes());
    assert(head_run(init, p6) == (HeadState::HeaderStart { host, value: digits_val(digits) }));

    lemma_run_app(init, p6, hdrs);
    lemma_run_header_block(host, digits_val(digits), hdrs);
    assert(head_run(init, p7) == (HeadState::HeaderStart { host, value: digits_val(digits) }));

    lemma_run_app(init, p7, seq![13u8, 10u8]);
    assert(seq![13u8, 10u8] =~= seq![13u8] + seq![10u8]);
    lemma_run_app(
        HeadState::HeaderStart { host, value: digits_val(digits) },
        seq![13u8],
        seq![10u8],
    );
    lemma_run_single(HeadState::HeaderStart { host, value: digits_val(digits) }, 13);
    lemma_run_single(HeadState::FinalCr { host, value: digits_val(digits) }, 10);
    assert(head_run(init, s) == (HeadState::Done { host, value: digits_val(digits) }));
}

/// `s` is the concatenation of `a` and `b`.
spec fn is_cat(s: Seq<u8>, a: Seq<u8>, b: Seq<u8>) -> bool {
    s == a + b
}

/// `s` is the concatenation of `a`, `b` and `c`.
spec fn is_cat3(s: Seq<u8>, a: Seq<u8>, b: Seq<u8>, c: Seq<u8>) -> bool {
    s == a + b + c
}

/// The single byte CR.
spec fn cr_bytes() -> Seq<u8> {
    seq![13u8]
}

/// The two bytes CR LF.
spec fn crlf_bytes() -> Seq<u8> {
    seq![13u8, 10u8]
}

/// Everything before the port digits: `"CONNECT " hostname ":"`.
spec fn port_prefix_bytes(host: Seq<u8>) -> Seq<u8> {
    method_bytes() + host + seq![58u8]
}

/// The space after the port and the first `matched` bytes of the version
/// literal.
spec fn version_prefix_bytes(matched: nat) -> Seq<u8> {
    seq![32u8] + version_bytes().take(matched as int)
}

/// The full request line, CRLF included, for the given hostname and port
/// digit run.
spec fn req_line_bytes(host: Seq<u8>, digits: Seq<u8>) -> Seq<u8> {
    method_bytes() + host + seq![58u8] + digits + seq![32u8] + version_bytes()
}

/// The request-line pieces that every state past the port carries.
spec fn port_pieces(host: Seq<u8>, digits: Seq<u8>, value: nat) -> bool {
    valid_host_bytes(host) && all_digits(digits) && digits.len() >= 1 && value == digits_val(
        digits,
    ) && value <= 65535
}

/// The input consumed in the port state: the prefix through `':'`, then
/// the digits read so far.
spec fn desc_port(s: Seq<u8>, host: Seq<u8>, seen_digit: bool, value: nat) -> bool {
    valid_host_bytes(host) && exists|d: Seq<u8>|
        #[trigger] is_cat(s, port_prefix_bytes(host), d) && all_digits(d) && (seen_digit == (
        d.len() > 0)) && value == digits_val(d) && value <= 65535
}

/// The input consumed in the version state: a full request line up to
/// `matched` bytes into the version literal.
spec fn desc_version(s: Seq<u8>, host: Seq<u8>, value: nat, matched: nat) -> bool {
    matched <= 9 && exists|d: Seq<u8>|
        #[trigger] is_cat3(s, port_prefix_bytes(host), d, version_prefix_bytes(matched))
            && port_pieces(host, d, value)
}

/// The input consumed at a header line start: a full request line and
/// complete header lines.
spec fn desc_header_start(s: Seq<u8>, host: Seq<u8>, value: nat) -> bool {
    exists|d: Seq<u8>, hs: Seq<u8>|
        #[trigger] is_cat(s, req_line_bytes(host, d), hs) && port_pieces(host, d, value)
            && valid_header_block(hs)
}

/// The input consumed inside a header line: as at a line start, then a
/// partial line.
spec fn desc_header_body(s: Seq<u8>, host: Seq<u8>, value: nat) -> bool {
    exists|d: Seq<u8>, hs: Seq<u8>, line: Seq<u8>|
        #[trigger] is_cat3(s, req_line_bytes(host, d), hs, line) && port_pieces(host, d, value)
            && valid_header_block(hs) && line.len() >= 1 && no_crlf(line)
}

/// The input consumed after a header line's CR.
spec fn desc_header_cr(s: Seq<u8>, host: Seq<u8>, value: nat) -> bool {
    exists|d: Seq<u8>, hs: Seq<u8>, line: Seq<u8>|
        #[trigger] is_cat3(s, req_line_bytes(host, d), hs, line + cr_bytes()) && port_pieces(
            host,
            d,
            value,
        ) && valid_header_block(hs) && line.len() >= 1 && no_crlf(line)
}

/// The input consumed after the final CR.
spec fn desc_final_cr(s: Seq<u8>, host: Seq<u8>, value: nat) -> bool {
    exists|d: Seq<u8>, hs: Seq<u8>|
        #[trigger] is_cat3(s, req_line_bytes(host, d), hs, cr_bytes()) && port_pieces(
            host,
            d,
            value,
        ) && valid_header_block(hs)
}

/// The input consumed once the head is done: the whole grammar.
spec fn desc_done(s: Seq<u8>, host: Seq<u8>, value: nat) -> bool {
    exists|d: Seq<u8>, hs: Seq<u8>|
        #[trigger] is_cat3(s, req_line_bytes(host, d), hs, crlf_bytes()) && port_pieces(
            host,
            d,
            value,
        ) && valid_header_block(hs)
}

/// How the input consumed so far decomposes, for each reachable state of
/// the scanner.
spec fn state_desc(s: Seq<u8>, st: HeadState) -> bool {
    match st {
        HeadState::Method { matched } => matched <= 7 && s == method_bytes().take(matched as int),
        HeadState::Host { host } => is_cat(s, method_bytes(), host) && (forall|i: int|
            0 <= i < host.len() ==> is_host_byte(#[trigger] host[i])),
        HeadState::Port { host, seen_digit, value } => desc_port(s, host, seen_digit, value),
        HeadState::Version { host, value, matched } => desc_version(s, host, value, matched),
        HeadState::HeaderStart { host, value } => desc_header_start(s, host, value),
        HeadState::HeaderBody { host, value } => desc_header_body(s, host, value),
        HeadState::HeaderCr { host, value } => desc_header_cr(s, host, value),
        HeadState::FinalCr { host, value } => desc_final_cr(s, host, value),
        HeadState::Done { host, value } => desc_done(s, host, value),
        HeadState::Failed => true,
    }
}

/// One step out of the method state preserves the description.
proof fn lemma_desc_step_method(s0: Seq<u8>, b: u8, matched: nat)
    requires
        state_desc(s0, HeadState::Method { matched }),
    ensures
        state_desc(s0.push(b), head_step(HeadState::Method { matched }, b)),
{
    let s = s0.push(b);
    if matched < 8 && b == method_bytes()[matched as int] {
        if matched == 7 {
            assert(s =~= method_bytes() + Seq::<u8>::empty());
            assert(is_cat(s, method_bytes(), Seq::<u8>::empty()));
        } else {
            assert(s =~= method_bytes().take(matched as int + 1));
        }
    }
}

/// One step out of the hostname state preserves the description.
proof fn lemma_desc_step_host(s0: Seq<u8>, b: u8, host: Seq<u8>)
    requires
        state_desc(s0, HeadState::Host { host }),
    ensures
        state_desc(s0.push(b), head_step(HeadState::Host { host }, b)),
{
    let s = s0.push(b);
    if is_host_byte(b) {
        assert(s =~= method_bytes() + host.push(b));
        assert(is_cat(s, method_bytes(), host.push(b)));
        assert(forall|i: int|
            0 <= i < host.push(b).len() ==> is_host_byte(#[trigger] host.push(b)[i]));
    } else if b == 58 && host.len() >= 1 {
        assert(s =~= port_prefix_bytes(host) + Seq::<u8>::empty());
        assert(is_cat(s, port_prefix_bytes(host), Seq::<u8>::empty()));
        assert(digits_val(Seq::<u8>::empty()) == 0);
        assert(all_digits(Seq::<u8>::empty()));
        assert(desc_port(s, host, false, 0));
    }
}

/// One step out of the port state preserves the description.
proof fn lemma_desc_step_port(s0: Seq<u8>, b: u8, host: Seq<u8>, seen_digit: bool, value: nat)
    requires
        state_desc(s0, HeadState::Port { host, seen_digit, value }),
    ensures
        state_desc(s0.push(b), head_step(HeadState::Port { host, seen_digit, value }, b)),
{
    let s = s0.push(b);
    let d = choose|d: Seq<u8>|
        #[trigger] is_cat(s0, port_prefix_bytes(host), d) && all_digits(d) && (seen_digit == (
        d.len() > 0)) && value == digits_val(d) && value <= 65535;
    if is_digit_byte(b) {
        if value * 10 + (b - 48) <= 65535 {
            assert(s =~= port_prefix_bytes(host) + d.push(b));
            assert(is_cat(s, port_prefix_bytes(host), d.push(b)));
            assert(d.push(b).drop_last() =~= d);
            assert(d.push(b).last() == b);
            assert(digits_val(d.push(b)) == (value * 10 + (b - 48)) as nat);
            assert(all_digits(d.push(b)));
            assert(desc_port(s, host, true, (value * 10 + (b - 48)) as nat));
        }
    } else if b == 32 && seen_digit {
        assert(version_prefix_bytes(0) =~= seq![32u8]);
        assert(s =~= port_prefix_bytes(host) + d + version_prefix_bytes(0));
        assert(is_cat3(s, port_prefix_bytes(host), d, version_prefix_bytes(0)));
        assert(desc_version(s, host, value, 0));
    }
}

/// One step inside the version literal preserves the description.
proof fn lemma_desc_step_version(s0: Seq<u8>, b: u8, host: Seq<u8>, value: nat, matched: nat)
    requires
        state_desc(s0, HeadState::Version { host, value, matched }),
    ensures
        state_desc(s0.push(b), head_step(HeadState::Version { host, value, matched }, b)),
{
    let s = s0.push(b);
    let d = choose|d: Seq<u8>|
        #[trigger] is_cat3(s0, port_prefix_bytes(host), d, version_prefix_bytes(matched))
            && port_pieces(host, d, value);
    if matched < 10 && b == version_bytes()[matched as int] {
        if matched == 9 {
            assert(version_bytes().take(10) =~= version_bytes());
            assert(s =~= req_line_bytes(host, d) + Seq::<u8>::empty());
            assert(is_cat(s, req_line_bytes(host, d), Seq::<u8>::empty()));
            assert(valid_header_block(Seq::<u8>::empty()));
            assert(desc_header_start(s, host, value));
        } else {
            assert(version_prefix_bytes((matched + 1) as nat) =~= version_prefix_bytes(
                matched,
            ).push(b));
            assert(s =~= port_prefix_bytes(host) + d + version_prefix_bytes((matched + 1) as nat));
            assert(is_cat3(s, port_prefix_bytes(host), d, version_prefix_bytes(
                (matched + 1) as nat,
            )));
            assert(desc_version(s, host, value, (matched + 1) as nat));
        }
    }
}

/// One step at the start of a header line preserves the description.
proof fn lemma_desc_step_header_start(s0: Seq<u8>, b: u8, host: Seq<u8>, value: nat)
    requires
        state_desc(s0, HeadState::HeaderStart { host, value }),
    ensures
        state_desc(s0.push(b), head_step(HeadState::HeaderStart { host, value }, b)),
{
    let s = s0.push(b);
    let (d, hs) = choose|d: Seq<u8>, hs: Seq<u8>|
        #[trigger] is_cat(s0, req_line_bytes(host, d), hs) && port_pieces(host, d, value)
            && valid_header_block(hs);
    if b == 13 {
        assert(s =~= req_line_bytes(host, d) + hs + cr_bytes());
        assert(is_cat3(s, req_line_bytes(host, d), hs, cr_bytes()));
        assert(desc_final_cr(s, host, value));
    } else if b != 10 {
        assert(s =~= req_line_bytes(host, d) + hs + seq![b]);
        assert(is_cat3(s, req_line_bytes(host, d), hs, seq![b]));
        assert(no_crlf(seq![b]));
        assert(desc_header_body(s, host, value));
    }
}

/// One step inside a header line preserves the description.
proof fn lemma_desc_step_header_body(s0: Seq<u8>, b: u8, host: Seq<u8>, value: nat)
    requires
        state_desc(s0, HeadState::HeaderBody { host, value }),
    ensures
        state_desc(s0.push(b), head_step(HeadState::HeaderBody { host, value }, b)),
{
    let s = s0.push(b);
    let (d, hs, line) = choose|d: Seq<u8>, hs: Seq<u8>, line: Seq<u8>|
        #[trigger] is_cat3(s0, req_line_bytes(host, d), hs, line) && port_pieces(host, d, value)
            && valid_header_block(hs) && line.len() >= 1 && no_crlf(line);
    if b == 13 {
        assert(s =~= req_line_bytes(host, d) + hs + (line + cr_bytes()));
        assert(is_cat3(s, req_line_bytes(host, d), hs, line + cr_bytes()));
        assert(desc_header_cr(s, host, value));
    } else if b != 10 {
        assert(s =~= req_line_bytes(host, d) + hs + line.push(b));
        assert(is_cat3(s, req_line_bytes(host, d), hs, line.push(b)));
        assert(no_crlf(line.push(b)));
        assert(desc_header_body(s, host, value));
    }
}

/// One step after a header line\'s CR preserves the description.
proof fn lemma_desc_step_header_cr(s0: Seq<u8>, b: u8, host: Seq<u8>, value: nat)
    requires
        state_desc(s0, HeadState::HeaderCr { host, value }),
    ensures
        state_desc(s0.push(b), head_step(HeadState::HeaderCr { host, value }, b)),
{
    let s = s0.push(b);
    let (d, hs, line) = choose|d: Seq<u8>, hs: Seq<u8>, line: Seq<u8>|
        #[trigger] is_cat3(s0, req_line_bytes(host, d), hs, line + cr_bytes()) && port_pieces(
            host,
            d,
            value,
        ) && valid_header_block(hs) && line.len() >= 1 && no_crlf(line);
    if b == 10 {
        lemma_header_block_snoc(hs, line);
        assert(s =~= req_line_bytes(host, d) + (hs + line + seq![13u8, 10u8]));
        assert(is_cat(s, req_line_bytes(host, d), hs + line + seq![13u8, 10u8]));
        assert(desc_header_start(s, host, value));
    }
}

/// One step after the final CR preserves the description.
proof fn lemma_desc_step_final_cr(s0: Seq<u8>, b: u8, host: Seq<u8>, value: nat)
    requires
        state_desc(s0, HeadState::FinalCr { host, value }),
    ensures
        state_desc(s0.push(b), head_step(HeadState::FinalCr { host, value }, b)),
{
    let s = s0.push(b);
    let (d, hs) = choose|d: Seq<u8>, hs: Seq<u8>|
        #[trigger] is_cat3(s0, req_line_bytes(host, d), hs, cr_bytes()) && port_pieces(
            host,
            d,
            value,
        ) && valid_header_block(hs);
    if b == 10 {
        assert(s =~= req_line_bytes(host, d) + hs + crlf_bytes());
        assert(is_cat3(s, req_line_bytes(host, d), hs, crlf_bytes()));
        assert(desc_done(s, host, value));
    }
}

/// Every state the scanner reaches describes the input consumed so far.
proof fn lemma_scan_desc(s: Seq<u8>)
    ensures
        state_desc(s, head_scan(s)),
    decreases s.len(),
{
    if s.len() == 0 {
        assert(s =~= method_bytes().take(0));
    } else {
        let s0 = s.drop_last();
        let b = s.last();
        lemma_scan_desc(s0);
        assert(s =~= s0.push(b));
        match head_scan(s0) {
            HeadState::Method { matched } => lemma_desc_step_method(s0, b, matched),
            HeadState::Host { host } => lemma_desc_step_host(s0, b, host),
            HeadState::Port { host, seen_digit, value } => lemma_desc_step_port(
                s0,
                b,
                host,
                seen_digit,
                value,
            ),
            HeadState::Version { host, value, matched } => lemma_desc_step_version(
                s0,
                b,
                host,
                value,
                matched,
            ),
            HeadState::HeaderStart { host, value } => lemma_desc_step_header_start(
                s0,
                b,
                host,
                value,
            ),
            HeadState::HeaderBody { host, value } => lemma_desc_step_header_body(
                s0,
                b,
                host,
                value,
            ),
            HeadState::HeaderCr { host, value } => lemma_desc_step_header_cr(s0, b, host, value),
            HeadState::FinalCr { host, value } => lemma_desc_step_final_cr(s0, b, host, value),
            HeadState::Done { .. } => {},
            HeadState::Failed => {},
        }
    }
}

/// Grammar soundness: whenever the scanner accepts a head, the input
/// really spells the CONNECT grammar, with exactly the hostname and port
/// that the scanner extracted.
pub proof fn lemma_complete_head_is_grammatical(s: Seq<u8>)
    requires
        head_complete(s),
    ensures
        exists|digits: Seq<u8>, hdrs: Seq<u8>|
            #[trigger] is_connect_head(s, head_host(s), digits, hdrs) && digits_val(digits)
                == head_port(s),
{
    lemma_scan_desc(s);
    let host = head_host(s);
    let value = head_port(s);
    let (d, hs) = choose|d: Seq<u8>, hs: Seq<u8>|
        #[trigger] is_cat3(s, req_line_bytes(host, d), hs, crlf_bytes()) && port_pieces(
            host,
            d,
            value,
        ) && valid_header_block(hs);
    assert(s =~= method_bytes() + host + seq![58u8] + d + seq![32u8] + version_bytes() + hs
        + seq![13u8, 10u8]);
    assert(is_connect_head(s, host, d, hs) && digits_val(d) == value);
}

/// The scanning phase of `parse_head`, one variant per `HeadState` shape.
#[derive(Clone, Copy, PartialEq, Eq, Structural)]
enum Phase {
    Method,
    Host,
    Port,
    Version,
    HeaderStart,
    HeaderBody,
    HeaderCr,
    FinalCr,
    Done,
    Failed,
}

/// The `HeadState` that a set of scanner locals stands for.
spec fn phase_state(
    phase: Phase,
    lit_pos: nat,
    host: Seq<u8>,
    seen_digit: bool,
    value: nat,
) -> HeadState {
    match phase {
        Phase::Method => HeadState::Method { matched: lit_pos },
        Phase::Host => HeadState::Host { host },
        Phase::Port => HeadState::Port { host, seen_digit, value },
        Phase::Version => HeadState::Version { host, value, matched: lit_pos },
        Phase::HeaderStart => HeadState::HeaderStart { host, value },
        Phase::HeaderBody => HeadState::HeaderBody { host, value },
        Phase::HeaderCr => HeadState::HeaderCr { host, value },
        Phase::FinalCr => HeadState::FinalCr { host, value },
        Phase::Done => HeadState::Done { host, value },
        Phase::Failed => HeadState::Failed,
    }
}

/// The byte at position `i` of the literal `"CONNECT "`.
fn method_byte_at(i: usize) -> (b: u8)
    requires
        i < 8,
    ensures
        b == method_bytes()[i as int],
{
    if i == 0 {
        67
    } else if i == 1 {
        79
    } else if i == 2 {
        78
    } else if i == 3 {
        78
    } else if i == 4 {
        69
    } else if i == 5 {
        67
    } else if i == 6 {
        84
    } else {
        32
    }
}

/// The byte at position `i` of the literal `"HTTP/1.1\r\n"`.
fn version_byte_at(i: usize) -> (b: u8)
    requires
        i < 10,
    ensures
        b == version_bytes()[i as int],
{
    if i == 0 {
        72
    } else if i == 1 {
        84
    } else if i == 2 {
        84
    } else if i == 3 {
        80
    } else if i == 4 {
        47
    } else if i == 5 {
        49
    } else if i == 6 {
        46
    } else if i == 7 {
        49
    } else if i == 8 {
        13
    } else {
        10
    }
}

/// Whether `b` may stand inside a hostname token.
fn is_host_byte_exec(b: u8) -> (r: bool)
    ensures
        r == is_host_byte(b),
{
    (97 <= b && b <= 122) || (65 <= b && b <= 90) || (48 <= b && b <= 57) || b == 46 || b == 45
}

/// Parse an HTTP request head.
///
/// This is severely limited: it accepts HTTP/1.1 CONNECT requests,
/// allowing but ignoring simple headers, and nothing else.  The function
/// is pure in its input buffer, so the caller may re-invoke it on the
/// same buffer as more bytes are appended.
pub fn parse_head(input: &[u8]) -> (r: ParseHeadResult)
    ensures
        match r {
            ParseHeadResult::Connect { host, port } => head_complete(input@) && host@
                == ascii_chars_of(head_host(input@)) && port as nat == head_port(input@),
            ParseHeadResult::Malformed(_) => head_malformed(input@),
            ParseHeadResult::Incomplete => head_incomplete(input@),
        },
{
    let ghost s = input@;
    let n = input.len();
    let mut phase = Phase::Method;
    let mut lit_pos: usize = 0;
    let mut host: Vec<u8> = Vec::new();
    let mut seen_digit: bool = false;
    let mut value: u32 = 0;
    let mut reason = ParseError::BadMethod;
    let mut pos: usize = 0;
    while pos < n
        invariant
            pos <= n,
            n == s.len(),
            input@ == s,
            lit_pos < 10,
            phase is Method ==> lit_pos < 8,
            phase is Method ==> host@.len() == 0,
            phase is Method || phase is Host ==> !seen_digit && value == 0,
            value <= 65535,
            forall|i: int| 0 <= i < host@.len() ==> is_host_byte(#[trigger] host@[i]),
            phase_state(phase, lit_pos as nat, host@, seen_digit, value as nat) == head_scan(
                s.take(pos as int),
            ),
        decreases n - pos,
    {
        let b = input[pos];
        proof {
            lemma_scan_take_succ(s, pos as int);
        }
        match phase {
            Phase::Method => {
                if b == method_byte_at(lit_pos) {
                    if lit_pos == 7 {
                        phase = Phase::Host;
                        lit_pos = 0;
                    } else {
                        lit_pos = lit_pos + 1;
                    }
                } else {
                    phase = Phase::Failed;
                    reason = ParseError::BadMethod;
                }
                proof { assert(host@ =~= Seq::<u8>::empty()); }
            },
            Phase::Host => {
                if is_host_byte_exec(b) {
                    host.push(b);
                } else if b == 58 && host.len() >= 1 {
                    phase = Phase::Port;
                } else {
                    phase = Phase::Failed;
                    reason = ParseError::BadHost;
                }
            },
            Phase::Port => {
                if 48 <= b && b <= 57 {
                    let v2 = value * 10 + ((b - 48) as u32);
                    if v2 > 65535 {
                        phase = Phase::Failed;
                        reason = ParseError::PortOutOfRange;
                    } else {
                        seen_digit = true;
                        value = v2;
                    }
                } else if b == 32 && seen_digit {
                    phase = Phase::Version;
                    lit_pos = 0;
                } else {
                    phase = Phase::Failed;
                    reason = ParseError::BadPort;
                }
            },
            Phase::Version => {
                if b == version_byte_at(lit_pos) {
                    if lit_pos == 9 {
                        phase = Phase::HeaderStart;
                        lit_pos = 0;
                    } else {
                        lit_pos = lit_pos + 1;
                    }
                } else {
                    phase = Phase::Failed;
                    reason = ParseError::BadVersion;
                }
            },
            Phase::HeaderStart => {
                if b == 13 {
                    phase = Phase::FinalCr;
                } else if b == 10 {
                    phase = Phase::Failed;
                    reason = ParseError::BadHeader;
                } else {
                    phase = Phase::HeaderBody;
                }
            },
            Phase::HeaderBody => {
                if b == 13 {
                    phase = Phase::HeaderCr;
                } else if b == 10 {
                    phase = Phase::Failed;
                    reason = ParseError::BadHeader;
                }
            },
            Phase::HeaderCr => {
                if b == 10 {
                    phase = Phase::HeaderStart;
                } else {
                    phase = Phase::Failed;
                    reason = ParseError::BadHeader;
                }
            },
            Phase::FinalCr => {
                if b == 10 {
                    phase = Phase::Done;
                } else {
                    phase = Phase::Failed;
                    reason = ParseError::BadHeader;
                }
            },
            Phase::Done => {
                phase = Phase::Failed;
                reason = ParseError::ExtraBytes;
            },
            Phase::Failed => {},
        }
        pos = pos + 1;
    }
    proof {
        assert(s.take(n as int) =~= s);
    }
    match phase {
        Phase::Done => {
            let host_str = ascii_bytes_to_string(host);
            ParseHeadResult::Connect { host: host_str, port: value as u16 }
        },
        Phase::Failed => ParseHeadResult::Malformed(reason),
        _ => ParseHeadResult::Incomplete,
    }
}

} // verus!
