//! Synthetic log generation for benchmarks and tests.

use vstd::prelude::*;

verus! {

/// The fixed text `2026-01-01T00:` that opens every synthetic line.
pub open spec fn line_head() -> Seq<u8> {
    seq![50u8, 48, 50, 54, 45, 48, 49, 45, 48, 49, 84, 48, 48, 58]
}

/// The fixed text `Z service=api level=INFO req=` after the timestamp.
pub open spec fn line_middle() -> Seq<u8> {
    seq![
        90u8, 32, 115, 101, 114, 118, 105, 99, 101, 61, 97, 112, 105, 32, 108, 101, 118, 101,
        108, 61, 73, 78, 70, 79, 32, 114, 101, 113, 61,
    ]
}

/// The fixed text ` payload=` before the padding.
pub open spec fn line_payload_tag() -> Seq<u8> {
    seq![32u8, 112, 97, 121, 108, 111, 97, 100, 61]
}

/// ASCII digit for `d < 10`.
pub open spec fn decimal_digit(d: nat) -> u8 {
    (48 + d) as u8
}

/// Two-digit zero-padded decimal text of `v < 100`.
pub open spec fn two_digits(v: nat) -> Seq<u8> {
    seq![decimal_digit(v / 10), decimal_digit(v % 10)]
}

/// Lower-case hexadecimal digit for `d < 16`.
pub open spec fn hex_digit(d: nat) -> u8 {
    if d < 10 { (48 + d) as u8 } else { (87 + d) as u8 }
}

/// Lower-case hexadecimal text of `n`, without leading zeros (`0` is `0`).
pub open spec fn hex_text(n: nat) -> Seq<u8>
    decreases n,
{
    if n < 16 {
        seq![hex_digit(n)]
    } else {
        hex_text(n / 16).push(hex_digit(n % 16))
    }
}

/// `n` copies of byte `b`.
pub open spec fn repeat_byte(b: u8, n: nat) -> Seq<u8> {
    Seq::new(n, |i: int| b)
}

/// Hexadecimal text of `n` padded with zeros to at least eight digits
/// (the `{:08x}` format).
pub open spec fn hex8(n: nat) -> Seq<u8> {
    let digits = hex_text(n);
    if digits.len() < 8 {
        repeat_byte(48, (8 - digits.len()) as nat) + digits
    } else {
        digits
    }
}

/// Line `idx` of the synthetic log, newline included:
/// `2026-01-01T00:MM:SSZ service=api level=INFO req=HHHHHHHH payload=<spaces>\n`
/// with `MM = (idx / 60) % 60`, `SS = idx % 60`, the request id in hex and
/// `payload_len` spaces of padding.
pub open spec fn log_line(idx: nat, payload_len: nat) -> Seq<u8> {
    line_head() + two_digits((idx / 60) % 60) + seq![58u8] + two_digits(idx % 60) + line_middle()
        + hex8(idx) + line_payload_tag() + repeat_byte(32, payload_len) + seq![10u8]
}

/// The first `lines` synthetic lines, concatenated.
pub open spec fn synthetic_log(lines: nat, payload_len: nat) -> Seq<u8>
    decreases lines,
{
    if lines == 0 {
        Seq::empty()
    } else {
        synthetic_log((lines - 1) as nat, payload_len) + log_line((lines - 1) as nat, payload_len)
    }
}

/// Number of occurrences of byte `b` in `s`.
pub open spec fn count_byte(s: Seq<u8>, b: u8) -> nat
    decreases s.len(),
{
    if s.len() == 0 {
        0
    } else {
        count_byte(s.drop_last(), b) + if s.last() == b { 1nat } else { 0nat }
    }
}

proof fn lemma_count_concat(a: Seq<u8>, c: Seq<u8>, b: u8)
    ensures
        count_byte(a + c, b) == count_byte(a, b) + count_byte(c, b),
    decreases c.len(),
{
    if c.len() == 0 {
        assert(a + c =~= a);
    } else {
        assert((a + c).drop_last() =~= a + c.drop_last());
        lemma_count_concat(a, c.drop_last(), b);
    }
}

proof fn lemma_count_absent(s: Seq<u8>, b: u8)
    requires
        forall|i: int| 0 <= i < s.len() ==> s[i] != b,
    ensures
        count_byte(s, b) == 0,
    decreases s.len(),
{
    if s.len() > 0 {
        lemma_count_absent(s.drop_last(), b);
    }
}

proof fn lemma_hex_text_digits(n: nat)
    ensures
        hex_text(n).len() >= 1,
        forall|i: int| 0 <= i < hex_text(n).len() ==> {
            let c = #[trigger] hex_text(n)[i];
            (48 <= c <= 57) || (97 <= c <= 102)
        },
    decreases n,
{
    if n >= 16 {
        lemma_hex_text_digits(n / 16);
    }
}

proof fn lemma_log_line_shape(idx: nat, payload_len: nat)
    ensures
        log_line(idx, payload_len).len() >= 66 + payload_len,
        log_line(idx, payload_len).last() == 10u8,
        forall|i: int| 0 <= i < log_line(idx, payload_len).len() - 1
            ==> #[trigger] log_line(idx, payload_len)[i] != 10u8,
{
    lemma_hex_text_digits(idx);
    let h = hex8(idx);
    assert(h.len() >= 8);
    assert forall|i: int| 0 <= i < h.len() implies #[trigger] h[i] != 10u8 by {
        if hex_text(idx).len() < 8 {
            let pad = (8 - hex_text(idx).len()) as int;
            if i >= pad {
                assert(h[i] == hex_text(idx)[i - pad]);
            }
        }
    }
    let body = line_head() + two_digits((idx / 60) % 60) + seq![58u8] + two_digits(idx % 60)
        + line_middle() + h + line_payload_tag() + repeat_byte(32, payload_len);
    assert(log_line(idx, payload_len) =~= body + seq![10u8]);
    assert forall|i: int| 0 <= i < body.len() implies #[trigger] body[i] != 10u8 by {
        let d1 = (idx / 60) % 60;
        let d2 = idx % 60;
        assert(d1 / 10 < 10 && d2 / 10 < 10);
    }
}

/// Every synthetic line ends with the only newline it holds, so the log of
/// `lines` lines holds exactly `lines` newline bytes.
pub proof fn lemma_synthetic_newline_count(lines: nat, payload_len: nat)
    ensures
        count_byte(synthetic_log(lines, payload_len), 10u8) == lines,
    decreases lines,
{
    if lines > 0 {
        let k = (lines - 1) as nat;
        lemma_synthetic_newline_count(k, payload_len);
        let line = log_line(k, payload_len);
        lemma_log_line_shape(k, payload_len);
        lemma_count_absent(line.drop_last(), 10u8);
        lemma_count_concat(synthetic_log(k, payload_len), line, 10u8);
    }
}

/// `16^k`.
pub open spec fn pow16(k: nat) -> nat
    decreases k,
{
    if k == 0 {
        1
    } else {
        16 * pow16((k - 1) as nat)
    }
}

proof fn lemma_hex_text_len(n: nat, k: nat)
    requires
        k >= 1,
        n < pow16(k),
    ensures
        hex_text(n).len() <= k,
    decreases k,
{
    if n >= 16 {
        if k == 1 {
            assert(pow16(1) == 16 * pow16(0));
        }
        let p = pow16((k - 1) as nat);
        assert(n / 16 < p) by (nonlinear_arith)
            requires
                n < 16 * p,
        ;
        lemma_hex_text_len(n / 16, (k - 1) as nat);
    }
}

/// A line whose index is below 2^32 is `66 + payload_len` bytes long: its
/// request id takes exactly eight hexadecimal digits.
proof fn lemma_log_line_len(idx: nat, payload_len: nat)
    requires
        idx < 4294967296,
    ensures
        log_line(idx, payload_len).len() == 66 + payload_len,
{
    reveal_with_fuel(pow16, 9);
    assert(pow16(8) == 4294967296);
    lemma_hex_text_len(idx, 8);
    lemma_hex_text_digits(idx);
    assert(hex8(idx).len() == 8);
}

/// The log of `lines` synthetic lines holds `66 + payload_len` bytes per
/// line, as long as every request id fits in eight hexadecimal digits
/// (`lines <= 2^32`).
pub proof fn lemma_synthetic_log_len(lines: nat, payload_len: nat)
    requires
        lines <= 4294967296,
    ensures
        synthetic_log(lines, payload_len).len() == lines * (66 + payload_len),
    decreases lines,
{
    if lines == 0 {
        assert(lines * (66 + payload_len) == 0) by (nonlinear_arith)
            requires
                lines == 0,
        ;
    } else {
        let k = (lines - 1) as nat;
        lemma_synthetic_log_len(k, payload_len);
        lemma_log_line_len(k, payload_len);
        assert(lines * (66 + payload_len) == k * (66 + payload_len) + (66 + payload_len))
            by (nonlinear_arith)
            requires
                lines == k + 1,
        ;
    }
}

proof fn lemma_synthetic_len_grows(k: nat, n: nat, payload_len: nat)
    requires
        k <= n,
    ensures
        synthetic_log(k, payload_len).len() <= synthetic_log(n, payload_len).len(),
        synthetic_log(n, payload_len).len() >= n * (66 + payload_len),
    decreases n,
{
    if n == 0 {
        assert(n * (66 + payload_len) == 0) by (nonlinear_arith)
            requires
                n == 0,
        ;
    } else {
        if k < n {
            lemma_synthetic_len_grows(k, (n - 1) as nat, payload_len);
        } else {
            lemma_synthetic_len_grows((n - 1) as nat, (n - 1) as nat, payload_len);
        }
        lemma_log_line_shape((n - 1) as nat, payload_len);
        assert(n * (66 + payload_len) == (n - 1) * (66 + payload_len) + (66 + payload_len))
            by (nonlinear_arith);
    }
}

fn push_two_digits(out: &mut Vec<u8>, v: usize)
    requires
        v < 100,
    ensures
        final(out)@ == old(out)@ + two_digits(v as nat),
{
    out.push((48 + v / 10) as u8);
    out.push((48 + v % 10) as u8);
    assert(final(out)@ =~= old(out)@ + two_digits(v as nat));
}

proof fn lemma_hex_text_step(n: nat)
    requires
        n >= 16,
    ensures
        hex_text(n) == hex_text(n / 16).push(hex_digit(n % 16)),
{
}

fn push_hex8(out: &mut Vec<u8>, n: usize)
    ensures
        final(out)@ == old(out)@ + hex8(n as nat),
{
    // Digits from least to most significant.
    let mut rev: Vec<u8> = Vec::new();
    let mut v: usize = n;
    loop
        invariant_except_break
            v > 0 || rev.len() == 0,
            v <= n,
            hex_text(n as nat) == hex_text(v as nat) + rev@.reverse(),
        ensures
            hex_text(n as nat) == rev@.reverse(),
            rev.len() >= 1,
        decreases v,
    {
        let d = v % 16;
        let digit: u8 = if d < 10 { (48 + d) as u8 } else { (87 + d) as u8 };
        let ghost old_rev = rev@;
        rev.push(digit);
        proof {
            assert(rev@.reverse() =~= seq![digit] + old_rev.reverse());
        }
        if v < 16 {
            proof {
                assert(hex_text(v as nat) =~= seq![digit]);
                assert(hex_text(n as nat) =~= rev@.reverse());
            }
            break;
        }
        proof {
            lemma_hex_text_step(v as nat);
            assert(hex_text(v as nat) =~= hex_text((v / 16) as nat) + seq![digit]);
            assert(hex_text(n as nat) =~= hex_text((v / 16) as nat) + rev@.reverse());
        }
        v = v / 16;
    }
    let digits_len = rev.len();
    let mut pad: usize = 0;
    let ghost start = out@;
    while pad + digits_len < 8
        invariant
            out@ == start + repeat_byte(48, pad as nat),
            pad + digits_len <= 8 || pad == 0,
            digits_len == rev.len(),
        decreases 8 - (pad + digits_len),
    {
        out.push(48u8);
        pad = pad + 1;
        assert(out@ =~= start + repeat_byte(48, pad as nat));
    }
    let ghost padded = out@;
    let mut i: usize = digits_len;
    while i > 0
        invariant
            i <= digits_len,
            digits_len == rev.len(),
            out@ == padded + rev@.reverse().subrange(0, (digits_len - i) as int),
        decreases i,
    {
        i = i - 1;
        out.push(rev[i]);
        assert(rev@.reverse()[(digits_len - 1 - i) as int] == rev@[i as int]);
        assert(out@ =~= padded + rev@.reverse().subrange(0, (digits_len - i) as int));
    }
    assert(rev@.reverse().subrange(0, digits_len as int) =~= rev@.reverse());
    assert(final(out)@ =~= old(out)@ + hex8(n as nat));
}

fn push_repeated(out: &mut Vec<u8>, b: u8, n: usize)
    ensures
        final(out)@ == old(out)@ + repeat_byte(b, n as nat),
{
    let ghost start = out@;
    let mut i: usize = 0;
    while i < n
        invariant
            i <= n,
            out@ == start + repeat_byte(b, i as nat),
        decreases n - i,
    {
        out.push(b);
        i = i + 1;
        assert(out@ =~= start + repeat_byte(b, i as nat));
    }
}

fn push_bytes(out: &mut Vec<u8>, bytes: &[u8])
    ensures
        final(out)@ == old(out)@ + bytes@,
{
    let ghost start = out@;
    let mut i: usize = 0;
    while i < bytes.len()
        invariant
            i <= bytes.len(),
            out@ == start + bytes@.subrange(0, i as int),
        decreases bytes.len() - i,
    {
        out.push(bytes[i]);
        i = i + 1;
        assert(out@ =~= start + bytes@.subrange(0, i as int));
    }
    assert(bytes@.subrange(0, bytes.len() as int) =~= bytes@);
}

fn push_log_line(out: &mut Vec<u8>, idx: usize, payload_len: usize)
    ensures
        final(out)@ == old(out)@ + log_line(idx as nat, payload_len as nat),
{
    let head: [u8; 14] = [50, 48, 50, 54, 45, 48, 49, 45, 48, 49, 84, 48, 48, 58];
    let middle: [u8; 29] = [
        90, 32, 115, 101, 114, 118, 105, 99, 101, 61, 97, 112, 105, 32, 108, 101, 118, 101, 108,
        61, 73, 78, 70, 79, 32, 114, 101, 113, 61,
    ];
    let tag: [u8; 9] = [32, 112, 97, 121, 108, 111, 97, 100, 61];
    assert(head@ =~= line_head());
    assert(middle@ =~= line_middle());
    assert(tag@ =~= line_payload_tag());
    let ghost start = out@;
    push_bytes(out, &head);
    push_two_digits(out, (idx / 60) % 60);
    out.push(58u8);
    push_two_digits(out, idx % 60);
    push_bytes(out, &middle);
    push_hex8(out, idx);
    push_bytes(out, &tag);
    push_repeated(out, 32u8, payload_len);
    out.push(10u8);
    assert(out@ =~= start + log_line(idx as nat, payload_len as nat));
}

/// Generates `lines` synthetic log lines, each padded with `payload_len`
/// spaces; the result is [`synthetic_log`] exactly.
pub fn synthetic_log_bytes(lines: usize, payload_len: usize) -> (bytes: Vec<u8>)
    requires
        synthetic_log(lines as nat, payload_len as nat).len() <= usize::MAX,
        payload_len + 32 <= usize::MAX,
    ensures
        bytes@ == synthetic_log(lines as nat, payload_len as nat),
{
    proof {
        lemma_synthetic_len_grows(lines as nat, lines as nat, payload_len as nat);
        assert(lines * (payload_len + 32) <= lines * (66 + payload_len)) by (nonlinear_arith);
    }
    let mut bytes: Vec<u8> = Vec::with_capacity(lines * (payload_len + 32));
    let mut idx: usize = 0;
    while idx < lines
        invariant
            idx <= lines,
            bytes@ == synthetic_log(idx as nat, payload_len as nat),
            synthetic_log(lines as nat, payload_len as nat).len() <= usize::MAX,
        decreases lines - idx,
    {
        proof {
            lemma_synthetic_len_grows((idx + 1) as nat, lines as nat, payload_len as nat);
        }
        push_log_line(&mut bytes, idx, payload_len);
        idx = idx + 1;
    }
    bytes
}

} // verus!
