use vstd::prelude::*;

verus! {

// The write-ahead log: an append-only, line-delimited text of mutation
// records. Each line is one JSON object carrying a `type` tag and the
// record's fields. Vector components are stored as their binary32 bit
// patterns (plain JSON integers) so that replay is bit-exact, NaN and
// infinity included. The codec below is verified: encoding and parsing
// are inverse to one another (see `lemma_parse_enc_line`).

/// One mutation, as recorded in the log.
#[derive(Debug)]
pub enum WalRecord {
    Upsert {
        collection: String,
        id: String,
        vector: Vec<u32>,
        payload_json: String,
        ts_ms: i64,
    },
    CreateCollection {
        name: String,
        dim: u32,
        metric: String,
        ts_ms: i64,
    },
}

/// The mathematical value of a record.
pub enum WalRecordV {
    UpsertV {
        collection: Seq<char>,
        id: Seq<char>,
        vector: Seq<u32>,
        payload_json: Seq<char>,
        ts_ms: int,
    },
    CreateV {
        name: Seq<char>,
        dim: int,
        metric: Seq<char>,
        ts_ms: int,
    },
}

/// View of a record.
pub open spec fn rec_v(r: WalRecord) -> WalRecordV {
    match r {
        WalRecord::Upsert { collection, id, vector, payload_json, ts_ms } =>
            WalRecordV::UpsertV {
                collection: collection@,
                id: id@,
                vector: vector@,
                payload_json: payload_json@,
                ts_ms: ts_ms as int,
            },
        WalRecord::CreateCollection { name, dim, metric, ts_ms } => WalRecordV::CreateV {
            name: name@,
            dim: dim as int,
            metric: metric@,
            ts_ms: ts_ms as int,
        },
    }
}

/// Replay failure: the zero-based index of the first unparseable line.
#[derive(Clone, Copy, Debug, PartialEq, Eq, Structural)]
pub enum WalError {
    CorruptWal(usize),
}

// ---------------------------------------------------------------------------
// Encoding.
// ---------------------------------------------------------------------------

/// Hexadecimal digit, lower case.
pub open spec fn hexd(n: int) -> char {
    if n == 0 { '0' } else if n == 1 { '1' } else if n == 2 { '2' } else if n == 3 { '3' }
    else if n == 4 { '4' } else if n == 5 { '5' } else if n == 6 { '6' } else if n == 7 { '7' }
    else if n == 8 { '8' } else if n == 9 { '9' } else if n == 10 { 'a' } else if n == 11 { 'b' }
    else if n == 12 { 'c' } else if n == 13 { 'd' } else if n == 14 { 'e' } else { 'f' }
}

/// JSON escape of one character: quote and backslash get a backslash,
/// control characters become `\u00XX`, everything else stands as itself.
pub open spec fn esc_char(c: char) -> Seq<char> {
    if c == '"' {
        seq!['\\', '"']
    } else if c == '\\' {
        seq!['\\', '\\']
    } else if (c as u32) < 32 {
        seq!['\\', 'u', '0', '0', hexd((c as u32) as int / 16), hexd((c as u32) as int % 16)]
    } else {
        seq![c]
    }
}

/// JSON escape of a string body.
pub open spec fn esc(s: Seq<char>) -> Seq<char>
    decreases s.len(),
{
    if s.len() == 0 {
        Seq::empty()
    } else {
        esc(s.drop_last()) + esc_char(s.last())
    }
}

/// Decimal digits of an unsigned number.
pub open spec fn dec_u(n: int) -> Seq<char>
    decreases n,
{
    if n < 10 {
        seq![hexd(if n < 0 { 0 } else { n })]
    } else {
        dec_u(n / 10) + seq![hexd(n % 10)]
    }
}

/// Decimal form of a signed number.
pub open spec fn dec_i(n: int) -> Seq<char> {
    if n < 0 {
        seq!['-'] + dec_u(-n)
    } else {
        dec_u(n)
    }
}

/// JSON array of the vector's components.
pub open spec fn enc_vec_items(v: Seq<u32>) -> Seq<char>
    decreases v.len(),
{
    if v.len() == 0 {
        Seq::empty()
    } else if v.len() == 1 {
        dec_u(v[0] as int)
    } else {
        enc_vec_items(v.drop_last()) + seq![','] + dec_u(v.last() as int)
    }
}

pub open spec fn enc_vec(v: Seq<u32>) -> Seq<char> {
    seq!['['] + enc_vec_items(v) + seq![']']
}

/// One encoded log line, newline not included.
pub open spec fn enc_line(r: WalRecordV) -> Seq<char> {
    match r {
        WalRecordV::UpsertV { collection, id, vector, payload_json, ts_ms } =>
            "{\"type\":\"Upsert\",\"collection\":\""@ + esc(collection) + seq!['"']
            + ",\"id\":\""@ + esc(id) + seq!['"']
            + ",\"vector\":"@ + enc_vec(vector)
            + ",\"payload_json\":\""@ + esc(payload_json) + seq!['"']
            + ",\"ts_ms\":"@ + dec_i(ts_ms) + seq!['}'],
        WalRecordV::CreateV { name, dim, metric, ts_ms } =>
            "{\"type\":\"CreateCollection\",\"name\":\""@ + esc(name) + seq!['"']
            + ",\"dim\":"@ + dec_u(dim)
            + ",\"metric\":\""@ + esc(metric) + seq!['"']
            + ",\"ts_ms\":"@ + dec_i(ts_ms) + seq!['}'],
    }
}

// ---------------------------------------------------------------------------
// Executable encoder.
// ---------------------------------------------------------------------------

fn hexd_x(n: u32) -> (r: char)
    ensures
        r == hexd(n as int),
{
    if n == 0 { '0' } else if n == 1 { '1' } else if n == 2 { '2' } else if n == 3 { '3' }
    else if n == 4 { '4' } else if n == 5 { '5' } else if n == 6 { '6' } else if n == 7 { '7' }
    else if n == 8 { '8' } else if n == 9 { '9' } else if n == 10 { 'a' } else if n == 11 { 'b' }
    else if n == 12 { 'c' } else if n == 13 { 'd' } else if n == 14 { 'e' } else { 'f' }
}

/// Appends the escape of one character.
fn push_esc_char(out: &mut Vec<char>, c: char)
    ensures
        final(out)@ == old(out)@ + esc_char(c),
{
    if c == '"' {
        out.push('\\');
        out.push('"');
        assert(final(out)@ =~= old(out)@ + esc_char(c));
    } else if c == '\\' {
        out.push('\\');
        out.push('\\');
        assert(final(out)@ =~= old(out)@ + esc_char(c));
    } else if (c as u32) < 32 {
        let n = c as u32;
        out.push('\\');
        out.push('u');
        out.push('0');
        out.push('0');
        out.push(hexd_x(n / 16));
        out.push(hexd_x(n % 16));
        assert(final(out)@ =~= old(out)@ + esc_char(c));
    } else {
        out.push(c);
        assert(final(out)@ =~= old(out)@ + esc_char(c));
    }
}

/// Appends the escaped body of a string.
fn push_esc(out: &mut Vec<char>, s: &str)
    ensures
        final(out)@ == old(out)@ + esc(s@),
{
    let n = s.unicode_len();
    let mut i: usize = 0;
    while i < n
        invariant
            0 <= i <= n,
            n == s@.len(),
            out@ == old(out)@ + esc(s@.take(i as int)),
        decreases n - i,
    {
        let c = s.get_char(i);
        push_esc_char(out, c);
        proof {
            assert(s@.take(i + 1).drop_last() =~= s@.take(i as int));
            assert(s@.take(i + 1).last() == s@[i as int]);
        }
        i += 1;
    }
    proof {
        assert(s@.take(n as int) =~= s@);
    }
}

/// Appends the decimal digits of `n`.
fn push_dec_u64(out: &mut Vec<char>, n: u64)
    ensures
        final(out)@ == old(out)@ + dec_u(n as int),
    decreases n,
{
    if n < 10 {
        out.push(hexd_x(n as u32));
    } else {
        push_dec_u64(out, n / 10);
        out.push(hexd_x((n % 10) as u32));
    }
}

/// Appends the decimal form of a signed number.
fn push_dec_i64(out: &mut Vec<char>, n: i64)
    ensures
        final(out)@ == old(out)@ + dec_i(n as int),
{
    if n < 0 {
        out.push('-');
        let mag: u64 = if n == i64::MIN {
            9223372036854775808u64
        } else {
            (0 - n) as u64
        };
        push_dec_u64(out, mag);
        assert(final(out)@ =~= old(out)@ + dec_i(n as int));
    } else {
        push_dec_u64(out, n as u64);
    }
}

/// Appends the JSON array of the vector's components.
fn push_vec(out: &mut Vec<char>, v: &Vec<u32>)
    ensures
        final(out)@ == old(out)@ + enc_vec(v@),
{
    out.push('[');
    let n = v.len();
    let mut i: usize = 0;
    while i < n
        invariant
            0 <= i <= n,
            n == v@.len(),
            out@ == old(out)@ + seq!['['] + enc_vec_items(v@.take(i as int)),
        decreases n - i,
    {
        if i > 0 {
            out.push(',');
        }
        push_dec_u64(out, v[i] as u64);
        proof {
            assert(v@.take(i + 1).drop_last() =~= v@.take(i as int));
            assert(v@.take(i + 1).last() == v@[i as int]);
            if i == 0 {
                assert(v@.take(1).len() == 1);
            }
        }
        i += 1;
    }
    out.push(']');
    proof {
        assert(v@.take(n as int) =~= v@);
        assert(final(out)@ =~= old(out)@ + enc_vec(v@));
    }
}

/// Appends every character of a literal.
fn push_lit(out: &mut Vec<char>, lit: &str)
    ensures
        final(out)@ == old(out)@ + lit@,
{
    let n = lit.unicode_len();
    let mut i: usize = 0;
    while i < n
        invariant
            0 <= i <= n,
            n == lit@.len(),
            out@ == old(out)@ + lit@.take(i as int),
        decreases n - i,
    {
        out.push(lit.get_char(i));
        proof {
            assert(lit@.take(i + 1) =~= lit@.take(i as int).push(lit@[i as int]));
        }
        i += 1;
    }
    proof {
        assert(lit@.take(n as int) =~= lit@);
    }
}

/// Encodes one record as its log line, newline not included.
pub fn encode_line(r: &WalRecord) -> (out: Vec<char>)
    ensures
        out@ == enc_line(rec_v(*r)),
{
    let mut out: Vec<char> = Vec::new();
    match r {
        WalRecord::Upsert { collection, id, vector, payload_json, ts_ms } => {
            push_lit(&mut out, "{\"type\":\"Upsert\",\"collection\":\"");
            push_esc(&mut out, collection.as_str());
            out.push('"');
            push_lit(&mut out, ",\"id\":\"");
            push_esc(&mut out, id.as_str());
            out.push('"');
            push_lit(&mut out, ",\"vector\":");
            push_vec(&mut out, vector);
            push_lit(&mut out, ",\"payload_json\":\"");
            push_esc(&mut out, payload_json.as_str());
            out.push('"');
            push_lit(&mut out, ",\"ts_ms\":");
            push_dec_i64(&mut out, *ts_ms);
            out.push('}');
            proof {
                assert(out@ =~= enc_line(rec_v(*r)));
            }
        },
        WalRecord::CreateCollection { name, dim, metric, ts_ms } => {
            push_lit(&mut out, "{\"type\":\"CreateCollection\",\"name\":\"");
            push_esc(&mut out, name.as_str());
            out.push('"');
            push_lit(&mut out, ",\"dim\":");
            push_dec_u64(&mut out, *dim as u64);
            push_lit(&mut out, ",\"metric\":\"");
            push_esc(&mut out, metric.as_str());
            out.push('"');
            push_lit(&mut out, ",\"ts_ms\":");
            push_dec_i64(&mut out, *ts_ms);
            out.push('}');
            proof {
                assert(out@ =~= enc_line(rec_v(*r)));
            }
        },
    }
    out
}


// ---------------------------------------------------------------------------
// Parsing. Each spec parser consumes a prefix of its input and returns the
// parsed value together with the leftover suffix; `None` marks a malformed
// input. The parsers accept exactly the text the encoder writes.
// ---------------------------------------------------------------------------

pub open spec fn is_digit(c: char) -> bool {
    '0' <= c && c <= '9'
}

pub open spec fn digit_val(c: char) -> int {
    c as int - '0' as int
}

pub open spec fn is_hexd_low(c: char) -> bool {
    is_digit(c) || ('a' <= c && c <= 'f')
}

/// The character a `\u00XX` escape denotes, for the control range the
/// encoder writes.
pub open spec fn unhex2(h1: char, h2: char) -> char {
    let lo: int = if is_digit(h2) { digit_val(h2) } else { h2 as int - 'a' as int + 10 };
    let v: int = if h1 == '1' { 16 + lo } else { lo };
    if v == 0 { '\u{0}' } else if v == 1 { '\u{1}' } else if v == 2 { '\u{2}' }
    else if v == 3 { '\u{3}' } else if v == 4 { '\u{4}' } else if v == 5 { '\u{5}' }
    else if v == 6 { '\u{6}' } else if v == 7 { '\u{7}' } else if v == 8 { '\u{8}' }
    else if v == 9 { '\u{9}' } else if v == 10 { '\u{a}' } else if v == 11 { '\u{b}' }
    else if v == 12 { '\u{c}' } else if v == 13 { '\u{d}' } else if v == 14 { '\u{e}' }
    else if v == 15 { '\u{f}' } else if v == 16 { '\u{10}' } else if v == 17 { '\u{11}' }
    else if v == 18 { '\u{12}' } else if v == 19 { '\u{13}' } else if v == 20 { '\u{14}' }
    else if v == 21 { '\u{15}' } else if v == 22 { '\u{16}' } else if v == 23 { '\u{17}' }
    else if v == 24 { '\u{18}' } else if v == 25 { '\u{19}' } else if v == 26 { '\u{1a}' }
    else if v == 27 { '\u{1b}' } else if v == 28 { '\u{1c}' } else if v == 29 { '\u{1d}' }
    else if v == 30 { '\u{1e}' } else { '\u{1f}' }
}

/// Parses a string body up to and including its closing quote.
pub open spec fn parse_str_body(s: Seq<char>) -> Option<(Seq<char>, Seq<char>)>
    decreases s.len(),
{
    if s.len() == 0 {
        None
    } else if s[0] == '"' {
        Some((Seq::empty(), s.drop_first()))
    } else if s[0] == '\\' {
        if s.len() < 2 {
            None
        } else if s[1] == '"' || s[1] == '\\' {
            match parse_str_body(s.skip(2)) {
                Some(tr) => Some((seq![s[1]] + tr.0, tr.1)),
                None => None,
            }
        } else if s[1] == 'u' {
            if s.len() < 6 {
                None
            } else if s[2] == '0' && s[3] == '0' && (s[4] == '0' || s[4] == '1')
                && is_hexd_low(s[5]) {
                match parse_str_body(s.skip(6)) {
                    Some(tr) => Some((seq![unhex2(s[4], s[5])] + tr.0, tr.1)),
                    None => None,
                }
            } else {
                None
            }
        } else {
            None
        }
    } else {
        match parse_str_body(s.drop_first()) {
            Some(tr) => Some((seq![s[0]] + tr.0, tr.1)),
            None => None,
        }
    }
}

/// Length of the leading run of decimal digits.
pub open spec fn digits_len(s: Seq<char>) -> int
    decreases s.len(),
{
    if s.len() > 0 && is_digit(s[0]) {
        1 + digits_len(s.drop_first())
    } else {
        0
    }
}

/// Value of a digit string, most significant first.
pub open spec fn val_of(ds: Seq<char>) -> int
    decreases ds.len(),
{
    if ds.len() == 0 {
        0
    } else {
        val_of(ds.drop_last()) * 10 + digit_val(ds.last())
    }
}

/// Parses an unsigned decimal number no larger than `max`.
pub open spec fn parse_num(s: Seq<char>, max: int) -> Option<(int, Seq<char>)> {
    let k = digits_len(s);
    if k == 0 || val_of(s.take(k)) > max {
        None
    } else {
        Some((val_of(s.take(k)), s.skip(k)))
    }
}

/// Parses a signed 64-bit decimal number.
pub open spec fn parse_int(s: Seq<char>) -> Option<(int, Seq<char>)> {
    if s.len() > 0 && s[0] == '-' {
        match parse_num(s.drop_first(), 0x8000000000000000) {
            Some(nr) => Some((0 - nr.0, nr.1)),
            None => None,
        }
    } else {
        parse_num(s, 0x7FFFFFFFFFFFFFFF)
    }
}

/// Peels a literal prefix.
pub open spec fn expect(s: Seq<char>, l: Seq<char>) -> Option<Seq<char>> {
    if l.len() <= s.len() && s.take(l.len() as int) == l {
        Some(s.skip(l.len() as int))
    } else {
        None
    }
}

/// Parses the items of a vector after the opening bracket, including the
/// closing bracket.
pub open spec fn parse_vec_items(s: Seq<char>) -> Option<(Seq<u32>, Seq<char>)>
    decreases s.len(),
{
    match parse_num(s, 0xFFFFFFFF) {
        Some(nr) => {
            let n = nr.0;
            let r = nr.1;
            if r.len() > 0 && r[0] == ',' && r.len() < s.len() {
                match parse_vec_items(r.drop_first()) {
                    Some(vr) => Some((seq![n as u32] + vr.0, vr.1)),
                    None => None,
                }
            } else if r.len() > 0 && r[0] == ']' {
                Some((seq![n as u32], r.drop_first()))
            } else {
                None
            }
        },
        None => None,
    }
}

/// Parses a JSON array of vector components.
pub open spec fn parse_vec_s(s: Seq<char>) -> Option<(Seq<u32>, Seq<char>)> {
    if s.len() >= 2 && s[0] == '[' && s[1] == ']' {
        Some((Seq::empty(), s.skip(2)))
    } else if s.len() >= 1 && s[0] == '[' {
        parse_vec_items(s.drop_first())
    } else {
        None
    }
}

/// Parses one whole log line into a record.
pub open spec fn parse_line_s(s: Seq<char>) -> Option<WalRecordV> {
    match expect(s, "{\"type\":\"Upsert\",\"collection\":\""@) {
        Some(r1) => match parse_str_body(r1) {
            Some(cr) => match expect(cr.1, ",\"id\":\""@) {
                Some(r2) => match parse_str_body(r2) {
                    Some(ir) => match expect(ir.1, ",\"vector\":"@) {
                        Some(r3) => match parse_vec_s(r3) {
                            Some(vr) => match expect(vr.1, ",\"payload_json\":\""@) {
                                Some(r4) => match parse_str_body(r4) {
                                    Some(pr) => match expect(pr.1, ",\"ts_ms\":"@) {
                                        Some(r5) => match parse_int(r5) {
                                            Some(tr) => {
                                                if tr.1 =~= seq!['}'] {
                                                    Some(WalRecordV::UpsertV {
                                                        collection: cr.0,
                                                        id: ir.0,
                                                        vector: vr.0,
                                                        payload_json: pr.0,
                                                        ts_ms: tr.0,
                                                    })
                                                } else {
                                                    None
                                                }
                                            },
                                            None => None,
                                        },
                                        None => None,
                                    },
                                    None => None,
                                },
                                None => None,
                            },
                            None => None,
                        },
                        None => None,
                    },
                    None => None,
                },
                None => None,
            },
            None => None,
        },
        None => match expect(s, "{\"type\":\"CreateCollection\",\"name\":\""@) {
            Some(r1) => match parse_str_body(r1) {
                Some(nr) => match expect(nr.1, ",\"dim\":"@) {
                    Some(r2) => match parse_num(r2, 0xFFFFFFFF) {
                        Some(dr) => match expect(dr.1, ",\"metric\":\""@) {
                            Some(r3) => match parse_str_body(r3) {
                                Some(mr) => match expect(mr.1, ",\"ts_ms\":"@) {
                                    Some(r4) => match parse_int(r4) {
                                        Some(tr) => {
                                            if tr.1 =~= seq!['}'] {
                                                Some(WalRecordV::CreateV {
                                                    name: nr.0,
                                                    dim: dr.0,
                                                    metric: mr.0,
                                                    ts_ms: tr.0,
                                                })
                                            } else {
                                                None
                                            }
                                        },
                                        None => None,
                                    },
                                    None => None,
                                },
                                None => None,
                            },
                            None => None,
                        },
                        None => None,
                    },
                    None => None,
                },
                None => None,
            },
            None => None,
        },
    }
}


// ---------------------------------------------------------------------------
// Round trip: parsing inverts encoding.
// ---------------------------------------------------------------------------

proof fn lemma_expect_prefix(l: Seq<char>, rest: Seq<char>)
    ensures
        expect(l + rest, l) == Some(rest),
{
    assert((l + rest).take(l.len() as int) =~= l);
    assert((l + rest).skip(l.len() as int) =~= rest);
}

/// Front decomposition of the escape of a nonempty string.
proof fn lemma_esc_first(t: Seq<char>)
    requires
        t.len() > 0,
    ensures
        esc(t) == esc_char(t[0]) + esc(t.drop_first()),
    decreases t.len(),
{
    if t.len() == 1 {
        assert(t.drop_last() =~= Seq::<char>::empty());
        assert(t.drop_first() =~= Seq::<char>::empty());
        assert(esc(t) =~= esc_char(t[0]) + esc(t.drop_first()));
    } else {
        lemma_esc_first(t.drop_last());
        assert(t.drop_last()[0] == t[0]);
        assert(t.drop_last().drop_first() =~= t.drop_first().drop_last());
        assert(t.drop_first().last() == t.last());
        assert(esc(t.drop_first())
            == esc(t.drop_first().drop_last()) + esc_char(t.drop_first().last()));
        assert(esc(t) =~= esc_char(t[0]) + esc(t.drop_first()));
    }
}

proof fn lemma_unhex(c: char)
    requires
        (c as u32) < 32,
    ensures
        unhex2(hexd((c as u32) as int / 16), hexd((c as u32) as int % 16)) == c,
{
    let u = (c as u32) as int;
    let hi = hexd(u / 16);
    let lo = hexd(u % 16);
    assert(0 <= u < 32);
        if u == 0 {
            assert(hi == '0' && lo == '0');
            assert(unhex2(hi, lo) == '\u{0}');
            assert(c == '\u{0}');
        }
        if u == 1 {
            assert(hi == '0' && lo == '1');
            assert(unhex2(hi, lo) == '\u{1}');
            assert(c == '\u{1}');
        }
        if u == 2 {
            assert(hi == '0' && lo == '2');
            assert(unhex2(hi, lo) == '\u{2}');
            assert(c == '\u{2}');
        }
        if u == 3 {
            assert(hi == '0' && lo == '3');
            assert(unhex2(hi, lo) == '\u{3}');
            assert(c == '\u{3}');
        }
        if u == 4 {
            assert(hi == '0' && lo == '4');
            assert(unhex2(hi, lo) == '\u{4}');
            assert(c == '\u{4}');
        }
        if u == 5 {
            assert(hi == '0' && lo == '5');
            assert(unhex2(hi, lo) == '\u{5}');
            assert(c == '\u{5}');
        }
        if u == 6 {
            assert(hi == '0' && lo == '6');
            assert(unhex2(hi, lo) == '\u{6}');
            assert(c == '\u{6}');
        }
        if u == 7 {
            assert(hi == '0' && lo == '7');
            assert(unhex2(hi, lo) == '\u{7}');
            assert(c == '\u{7}');
        }
        if u == 8 {
            assert(hi == '0' && lo == '8');
            assert(unhex2(hi, lo) == '\u{8}');
            assert(c == '\u{8}');
        }
        if u == 9 {
            assert(hi == '0' && lo == '9');
            assert(unhex2(hi, lo) == '\u{9}');
            assert(c == '\u{9}');
        }
        if u == 10 {
            assert(hi == '0' && lo == 'a');
            assert(unhex2(hi, lo) == '\u{a}');
            assert(c == '\u{a}');
        }
        if u == 11 {
            assert(hi == '0' && lo == 'b');
            assert(unhex2(hi, lo) == '\u{b}');
            assert(c == '\u{b}');
        }
        if u == 12 {
            assert(hi == '0' && lo == 'c');
            assert(unhex2(hi, lo) == '\u{c}');
            assert(c == '\u{c}');
        }
        if u == 13 {
            assert(hi == '0' && lo == 'd');
            assert(unhex2(hi, lo) == '\u{d}');
            assert(c == '\u{d}');
        }
        if u == 14 {
            assert(hi == '0' && lo == 'e');
            assert(unhex2(hi, lo) == '\u{e}');
            assert(c == '\u{e}');
        }
        if u == 15 {
            assert(hi == '0' && lo == 'f');
            assert(unhex2(hi, lo) == '\u{f}');
            assert(c == '\u{f}');
        }
        if u == 16 {
            assert(hi == '1' && lo == '0');
            assert(unhex2(hi, lo) == '\u{10}');
            assert(c == '\u{10}');
        }
        if u == 17 {
            assert(hi == '1' && lo == '1');
            assert(unhex2(hi, lo) == '\u{11}');
            assert(c == '\u{11}');
        }
        if u == 18 {
            assert(hi == '1' && lo == '2');
            assert(unhex2(hi, lo) == '\u{12}');
            assert(c == '\u{12}');
        }
        if u == 19 {
            assert(hi == '1' && lo == '3');
            assert(unhex2(hi, lo) == '\u{13}');
            assert(c == '\u{13}');
        }
        if u == 20 {
            assert(hi == '1' && lo == '4');
            assert(unhex2(hi, lo) == '\u{14}');
            assert(c == '\u{14}');
        }
        if u == 21 {
            assert(hi == '1' && lo == '5');
            assert(unhex2(hi, lo) == '\u{15}');
            assert(c == '\u{15}');
        }
        if u == 22 {
            assert(hi == '1' && lo == '6');
            assert(unhex2(hi, lo) == '\u{16}');
            assert(c == '\u{16}');
        }
        if u == 23 {
            assert(hi == '1' && lo == '7');
            assert(unhex2(hi, lo) == '\u{17}');
            assert(c == '\u{17}');
        }
        if u == 24 {
            assert(hi == '1' && lo == '8');
            assert(unhex2(hi, lo) == '\u{18}');
            assert(c == '\u{18}');
        }
        if u == 25 {
            assert(hi == '1' && lo == '9');
            assert(unhex2(hi, lo) == '\u{19}');
            assert(c == '\u{19}');
        }
        if u == 26 {
            assert(hi == '1' && lo == 'a');
            assert(unhex2(hi, lo) == '\u{1a}');
            assert(c == '\u{1a}');
        }
        if u == 27 {
            assert(hi == '1' && lo == 'b');
            assert(unhex2(hi, lo) == '\u{1b}');
            assert(c == '\u{1b}');
        }
        if u == 28 {
            assert(hi == '1' && lo == 'c');
            assert(unhex2(hi, lo) == '\u{1c}');
            assert(c == '\u{1c}');
        }
        if u == 29 {
            assert(hi == '1' && lo == 'd');
            assert(unhex2(hi, lo) == '\u{1d}');
            assert(c == '\u{1d}');
        }
        if u == 30 {
            assert(hi == '1' && lo == 'e');
            assert(unhex2(hi, lo) == '\u{1e}');
            assert(c == '\u{1e}');
        }
        if u == 31 {
            assert(hi == '1' && lo == 'f');
            assert(unhex2(hi, lo) == '\u{1f}');
            assert(c == '\u{1f}');
        }
}

/// The escape of a character never holds a quote, a raw backslash escape
/// confusion, or a control character; what matters here: parsing undoes it.
proof fn lemma_parse_esc(t: Seq<char>, rest: Seq<char>)
    ensures
        parse_str_body(esc(t) + seq!['"'] + rest) == Some((t, rest)),
    decreases t.len(),
{
    let s = esc(t) + seq!['"'] + rest;
    if t.len() == 0 {
        assert(esc(t) =~= Seq::<char>::empty());
        assert(s =~= seq!['"'] + rest);
        assert(s[0] == '"');
        assert(s.drop_first() =~= rest);
    } else {
        lemma_esc_first(t);
        lemma_parse_esc(t.drop_first(), rest);
        let c = t[0];
        let s2 = esc(t.drop_first()) + seq!['"'] + rest;
        assert(s =~= esc_char(c) + s2);
        if c == '"' {
            assert(s[0] == '\\' && s[1] == '"');
            assert(s.skip(2) =~= s2);
            assert(seq![s[1]] + t.drop_first() =~= t);
        } else if c == '\\' {
            assert(s[0] == '\\' && s[1] == '\\');
            assert(s.skip(2) =~= s2);
            assert(seq![s[1]] + t.drop_first() =~= t);
        } else if (c as u32) < 32 {
            let hi = hexd((c as u32) as int / 16);
            let lo = hexd((c as u32) as int % 16);
            assert(s[0] == '\\' && s[1] == 'u' && s[2] == '0' && s[3] == '0');
            assert(s[4] == hi && s[5] == lo);
            assert(s[4] == '0' || s[4] == '1');
            assert(is_hexd_low(s[5]));
            assert(s.skip(6) =~= s2);
            lemma_unhex(c);
            assert(unhex2(hi, lo) == c);
            assert(seq![unhex2(s[4], s[5])] + t.drop_first() =~= t);
        } else {
            assert(s[0] == c);
            assert(c != '"' && c != '\\');
            assert(s.drop_first() =~= s2);
            assert(seq![s[0]] + t.drop_first() =~= t);
        }
    }
}

/// Decimal digits are digits and denote their number.
proof fn lemma_dec_u(n: int)
    requires
        n >= 0,
    ensures
        dec_u(n).len() >= 1,
        forall|i: int| 0 <= i < dec_u(n).len() ==> is_digit(#[trigger] dec_u(n)[i]),
        val_of(dec_u(n)) == n,
    decreases n,
{
    if n < 10 {
        assert(dec_u(n) =~= seq![hexd(n)]);
        assert(is_digit(hexd(n)));
        assert(dec_u(n).drop_last() =~= Seq::<char>::empty());
        assert(dec_u(n).last() == hexd(n));
        assert(val_of(Seq::<char>::empty()) == 0);
        assert(digit_val(hexd(n)) == n);
        assert(val_of(dec_u(n)) == val_of(dec_u(n).drop_last()) * 10 + digit_val(dec_u(n).last()));
    } else {
        lemma_dec_u(n / 10);
        assert(dec_u(n) == dec_u(n / 10) + seq![hexd(n % 10)]);
        assert(dec_u(n).drop_last() =~= dec_u(n / 10));
        assert(dec_u(n).last() == hexd(n % 10));
        assert(is_digit(hexd(n % 10)));
        assert(digit_val(hexd(n % 10)) == n % 10);
        assert(val_of(dec_u(n)) == (n / 10) * 10 + n % 10);
        assert((n / 10) * 10 + n % 10 == n) by (nonlinear_arith);
    }
}

/// Where the digit run ends.
proof fn lemma_digits_len_at(s: Seq<char>, j: int)
    requires
        0 <= j <= s.len(),
        forall|m: int| 0 <= m < j ==> is_digit(#[trigger] s[m]),
        j < s.len() ==> !is_digit(s[j as int]),
    ensures
        digits_len(s) == j,
    decreases s.len(),
{
    if j == 0 {
    } else {
        assert(is_digit(s[0]));
        assert(forall|m: int| 0 <= m < j - 1 ==> is_digit(#[trigger] s.drop_first()[m])) by {
            assert(forall|m: int| 0 <= m < j - 1 ==> s.drop_first()[m] == #[trigger] s[m + 1]);
        }
        assert(j - 1 < s.drop_first().len() ==> !is_digit(s.drop_first()[j - 1]));
        lemma_digits_len_at(s.drop_first(), j - 1);
    }
}

/// Parsing the encoder's digits yields the number back.
proof fn lemma_parse_num_dec(n: int, max: int, rest: Seq<char>)
    requires
        0 <= n <= max,
        rest.len() > 0 ==> !is_digit(rest[0]),
    ensures
        parse_num(dec_u(n) + rest, max) == Some((n, rest)),
{
    lemma_dec_u(n);
    let s = dec_u(n) + rest;
    let k = dec_u(n).len() as int;
    assert(forall|m: int| 0 <= m < k ==> is_digit(#[trigger] s[m]));
    assert(k < s.len() ==> !is_digit(s[k]));
    lemma_digits_len_at(s, k);
    assert(s.take(k) =~= dec_u(n));
    assert(s.skip(k) =~= rest);
}

/// Parsing the encoder's signed decimal yields the number back.
proof fn lemma_parse_int_dec(n: int, rest: Seq<char>)
    requires
        -0x8000000000000000 <= n <= 0x7FFFFFFFFFFFFFFF,
        rest.len() > 0 ==> !is_digit(rest[0]),
    ensures
        parse_int(dec_i(n) + rest) == Some((n, rest)),
{
    let s = dec_i(n) + rest;
    if n < 0 {
        lemma_dec_u(0 - n);
        assert(s[0] == '-');
        assert(!is_digit('-'));
        assert(s.drop_first() =~= dec_u(0 - n) + rest);
        lemma_parse_num_dec(0 - n, 0x8000000000000000, rest);
    } else {
        assert(s =~= dec_u(n) + rest);
        lemma_dec_u(n);
        assert(dec_u(n)[0] == (dec_u(n) + rest)[0]);
        assert(is_digit(s[0]));
        assert(s[0] != '-');
        lemma_parse_num_dec(n, 0x7FFFFFFFFFFFFFFF, rest);
    }
}

/// Front decomposition of an encoded item list with at least two items.
proof fn lemma_enc_items_first(v: Seq<u32>)
    requires
        v.len() >= 2,
    ensures
        enc_vec_items(v) == dec_u(v[0] as int) + seq![','] + enc_vec_items(v.drop_first()),
    decreases v.len(),
{
    if v.len() == 2 {
        assert(v.drop_last() =~= seq![v[0]]);
        assert(enc_vec_items(v.drop_last()) == dec_u(v[0] as int));
        assert(v.drop_first() =~= seq![v[1]]);
        assert(enc_vec_items(v.drop_first()) == dec_u(v[1] as int));
        assert(v.last() == v[1]);
        assert(enc_vec_items(v) =~= dec_u(v[0] as int) + seq![','] + enc_vec_items(v.drop_first()));
    } else {
        lemma_enc_items_first(v.drop_last());
        assert(v.drop_last()[0] == v[0]);
        assert(v.drop_last().drop_first() =~= v.drop_first().drop_last());
        assert(v.drop_first().last() == v.last());
        assert(enc_vec_items(v.drop_first())
            == enc_vec_items(v.drop_first().drop_last()) + seq![','] + dec_u(v.drop_first().last() as int));
        assert(enc_vec_items(v) =~= dec_u(v[0] as int) + seq![','] + enc_vec_items(v.drop_first()));
    }
}

/// Parsing the encoder's item list yields the items back.
proof fn lemma_parse_vec_items(v: Seq<u32>, rest: Seq<char>)
    requires
        v.len() >= 1,
    ensures
        parse_vec_items(enc_vec_items(v) + seq![']'] + rest) == Some((v, rest)),
    decreases v.len(),
{
    let s = enc_vec_items(v) + seq![']'] + rest;
    if v.len() == 1 {
        assert(enc_vec_items(v) == dec_u(v[0] as int));
        assert(s =~= dec_u(v[0] as int) + (seq![']'] + rest));
        assert(!is_digit(']'));
        lemma_parse_num_dec(v[0] as int, 0xFFFFFFFF, seq![']'] + rest);
        let r = seq![']'] + rest;
        assert(r[0] == ']');
        assert(r.drop_first() =~= rest);
        assert((v[0] as int) as u32 == v[0]);
        assert(seq![v[0]] =~= v);
    } else {
        lemma_enc_items_first(v);
        lemma_parse_vec_items(v.drop_first(), rest);
        let mid = seq![','] + enc_vec_items(v.drop_first()) + seq![']'] + rest;
        assert(s =~= dec_u(v[0] as int) + mid);
        assert(!is_digit(','));
        lemma_parse_num_dec(v[0] as int, 0xFFFFFFFF, mid);
        assert(mid[0] == ',');
        assert(mid.drop_first() =~= enc_vec_items(v.drop_first()) + seq![']'] + rest);
        lemma_dec_u(v[0] as int);
        assert(mid.len() < s.len());
        assert(seq![v[0]] + v.drop_first() =~= v);
    }
}

/// Parsing the encoder's array yields the vector back.
proof fn lemma_parse_vec(v: Seq<u32>, rest: Seq<char>)
    ensures
        parse_vec_s(enc_vec(v) + rest) == Some((v, rest)),
{
    let s = enc_vec(v) + rest;
    assert(s[0] == '[');
    if v.len() == 0 {
        assert(enc_vec_items(v) =~= Seq::<char>::empty());
        assert(s =~= seq!['[', ']'] + rest);
        assert(s[1] == ']');
        assert(s.skip(2) =~= rest);
    } else {
        lemma_dec_u(v[0] as int);
        if v.len() == 1 {
            assert(enc_vec_items(v)[0] == dec_u(v[0] as int)[0]);
        } else {
            lemma_enc_items_first(v);
            assert(enc_vec_items(v)[0] == dec_u(v[0] as int)[0]);
        }
        assert(is_digit(enc_vec_items(v)[0]));
        assert(s[1] == enc_vec_items(v)[0]);
        assert(s[1] != ']');
        assert(s.drop_first() =~= enc_vec_items(v) + seq![']'] + rest);
        lemma_parse_vec_items(v, rest);
    }
}

/// Fields a record must keep within machine ranges.
pub open spec fn rec_v_wf(r: WalRecordV) -> bool {
    match r {
        WalRecordV::UpsertV { ts_ms, .. } =>
            -0x8000000000000000 <= ts_ms <= 0x7FFFFFFFFFFFFFFF,
        WalRecordV::CreateV { dim, ts_ms, .. } =>
            0 <= dim <= 0xFFFFFFFF && -0x8000000000000000 <= ts_ms <= 0x7FFFFFFFFFFFFFFF,
    }
}

/// The round trip: the parser recovers every record the encoder writes.
pub proof fn lemma_parse_enc_line(r: WalRecordV)
    requires
        rec_v_wf(r),
    ensures
        parse_line_s(enc_line(r)) == Some(r),
{
    match r {
        WalRecordV::UpsertV { .. } => lemma_parse_enc_upsert(r),
        WalRecordV::CreateV { .. } => lemma_parse_enc_create(r),
    }
}

#[verifier::rlimit(100)]
proof fn lemma_parse_enc_upsert(r: WalRecordV)
    requires
        rec_v_wf(r),
        r is UpsertV,
    ensures
        parse_line_s(enc_line(r)) == Some(r),
{
    let lu = "{\"type\":\"Upsert\",\"collection\":\""@;
    let lc = "{\"type\":\"CreateCollection\",\"name\":\""@;
    reveal_strlit("{\"type\":\"Upsert\",\"collection\":\"");
    reveal_strlit("{\"type\":\"CreateCollection\",\"name\":\"");
    reveal_strlit(",\"id\":\"");
    reveal_strlit(",\"vector\":");
    reveal_strlit(",\"payload_json\":\"");
    reveal_strlit(",\"ts_ms\":");
    reveal_strlit(",\"dim\":");
    reveal_strlit(",\"metric\":\"");
    match r {
        WalRecordV::UpsertV { collection, id, vector, payload_json, ts_ms } => {
            let s = enc_line(r);
            let t1 = esc(collection) + seq!['"'] + (",\"id\":\""@ + (esc(id) + seq!['"']
                + (",\"vector\":"@ + (enc_vec(vector) + (",\"payload_json\":\""@
                + (esc(payload_json) + seq!['"'] + (",\"ts_ms\":"@
                + (dec_i(ts_ms) + seq!['}']))))))));
            assert(s =~= lu + t1);
            lemma_expect_prefix(lu, t1);
            assert(expect(s, lu) == Some(t1));
            let u1 = ",\"id\":\""@ + (esc(id) + seq!['"'] + (",\"vector\":"@ + (enc_vec(vector)
                + (",\"payload_json\":\""@ + (esc(payload_json) + seq!['"'] + (",\"ts_ms\":"@
                + (dec_i(ts_ms) + seq!['}'])))))));
            assert(t1 =~= esc(collection) + seq!['"'] + u1);
            lemma_parse_esc(collection, u1);
            let u2 = esc(id) + seq!['"'] + (",\"vector\":"@ + (enc_vec(vector)
                + (",\"payload_json\":\""@ + (esc(payload_json) + seq!['"'] + (",\"ts_ms\":"@
                + (dec_i(ts_ms) + seq!['}']))))));
            assert(u1 =~= ",\"id\":\""@ + u2);
            lemma_expect_prefix(",\"id\":\""@, u2);
            let u3 = ",\"vector\":"@ + (enc_vec(vector) + (",\"payload_json\":\""@
                + (esc(payload_json) + seq!['"'] + (",\"ts_ms\":"@ + (dec_i(ts_ms) + seq!['}'])))));
            lemma_parse_esc(id, u3);
            assert(u2 =~= esc(id) + seq!['"'] + u3);
            let u4 = enc_vec(vector) + (",\"payload_json\":\""@ + (esc(payload_json) + seq!['"']
                + (",\"ts_ms\":"@ + (dec_i(ts_ms) + seq!['}']))));
            assert(u3 =~= ",\"vector\":"@ + u4);
            lemma_expect_prefix(",\"vector\":"@, u4);
            let u5 = ",\"payload_json\":\""@ + (esc(payload_json) + seq!['"'] + (",\"ts_ms\":"@
                + (dec_i(ts_ms) + seq!['}'])));
            assert(u4 =~= enc_vec(vector) + u5);
            lemma_parse_vec(vector, u5);
            let u6 = esc(payload_json) + seq!['"'] + (",\"ts_ms\":"@ + (dec_i(ts_ms) + seq!['}']));
            assert(u5 =~= ",\"payload_json\":\""@ + u6);
            lemma_expect_prefix(",\"payload_json\":\""@, u6);
            let u7 = ",\"ts_ms\":"@ + (dec_i(ts_ms) + seq!['}']);
            assert(u6 =~= esc(payload_json) + seq!['"'] + u7);
            lemma_parse_esc(payload_json, u7);
            let u8 = dec_i(ts_ms) + seq!['}'];
            assert(u7 =~= ",\"ts_ms\":"@ + u8);
            lemma_expect_prefix(",\"ts_ms\":"@, u8);
            assert(!is_digit('}'));
            lemma_parse_int_dec(ts_ms, seq!['}']);
            assert(parse_line_s(s) == Some(r));
        },
        _ => {},
    }
}

#[verifier::rlimit(100)]
proof fn lemma_parse_enc_create(r: WalRecordV)
    requires
        rec_v_wf(r),
        r is CreateV,
    ensures
        parse_line_s(enc_line(r)) == Some(r),
{
    let lu = "{\"type\":\"Upsert\",\"collection\":\""@;
    let lc = "{\"type\":\"CreateCollection\",\"name\":\""@;
    reveal_strlit("{\"type\":\"Upsert\",\"collection\":\"");
    reveal_strlit("{\"type\":\"CreateCollection\",\"name\":\"");
    reveal_strlit(",\"id\":\"");
    reveal_strlit(",\"vector\":");
    reveal_strlit(",\"payload_json\":\"");
    reveal_strlit(",\"ts_ms\":");
    reveal_strlit(",\"dim\":");
    reveal_strlit(",\"metric\":\"");
    match r {
        WalRecordV::CreateV { name, dim, metric, ts_ms } => {
            let s = enc_line(r);
            // The Upsert branch fails: the two tags differ.
            assert(s[0] == lc[0]);
            assert(lc[9] == 'C' && lu[9] == 'U');
            assert(expect(s, lu) is None) by {
                if expect(s, lu) is Some {
                    assert(s.take(lu.len() as int) == lu);
                    assert(s.take(lu.len() as int)[9] == s[9]);
                    assert(s[9] == (lc + (esc(name) + seq!['"'] + (",\"dim\":"@ + (dec_u(dim)
                        + (",\"metric\":\""@ + (esc(metric) + seq!['"'] + (",\"ts_ms\":"@
                        + (dec_i(ts_ms) + seq!['}']))))))))[9]);
                    assert(s =~= lc + (esc(name) + seq!['"'] + (",\"dim\":"@ + (dec_u(dim)
                        + (",\"metric\":\""@ + (esc(metric) + seq!['"'] + (",\"ts_ms\":"@
                        + (dec_i(ts_ms) + seq!['}'])))))))); 
                    assert(s[9] == 'C');
                    assert(false);
                }
            }
            let t1 = esc(name) + seq!['"'] + (",\"dim\":"@ + (dec_u(dim) + (",\"metric\":\""@
                + (esc(metric) + seq!['"'] + (",\"ts_ms\":"@ + (dec_i(ts_ms) + seq!['}']))))));
            assert(s =~= lc + t1);
            lemma_expect_prefix(lc, t1);
            let u1 = ",\"dim\":"@ + (dec_u(dim) + (",\"metric\":\""@ + (esc(metric) + seq!['"']
                + (",\"ts_ms\":"@ + (dec_i(ts_ms) + seq!['}'])))));
            assert(t1 =~= esc(name) + seq!['"'] + u1);
            lemma_parse_esc(name, u1);
            let u2 = dec_u(dim) + (",\"metric\":\""@ + (esc(metric) + seq!['"'] + (",\"ts_ms\":"@
                + (dec_i(ts_ms) + seq!['}']))));
            assert(u1 =~= ",\"dim\":"@ + u2);
            lemma_expect_prefix(",\"dim\":"@, u2);
            let u3 = ",\"metric\":\""@ + (esc(metric) + seq!['"'] + (",\"ts_ms\":"@
                + (dec_i(ts_ms) + seq!['}'])));
            assert(u2 =~= dec_u(dim) + u3);
            assert(u3[0] == ',');
            assert(!is_digit(','));
            lemma_parse_num_dec(dim, 0xFFFFFFFF, u3);
            let u4 = esc(metric) + seq!['"'] + (",\"ts_ms\":"@ + (dec_i(ts_ms) + seq!['}']));
            assert(u3 =~= ",\"metric\":\""@ + u4);
            lemma_expect_prefix(",\"metric\":\""@, u4);
            let u5 = ",\"ts_ms\":"@ + (dec_i(ts_ms) + seq!['}']);
            assert(u4 =~= esc(metric) + seq!['"'] + u5);
            lemma_parse_esc(metric, u5);
            let u6 = dec_i(ts_ms) + seq!['}'];
            assert(u5 =~= ",\"ts_ms\":"@ + u6);
            lemma_expect_prefix(",\"ts_ms\":"@, u6);
            assert(!is_digit('}'));
            lemma_parse_int_dec(ts_ms, seq!['}']);
            assert(parse_line_s(s) == Some(r));
        },
        _ => {},
    }
}


// ---------------------------------------------------------------------------
// Executable parser.
// ---------------------------------------------------------------------------

/// Relies on String's FromIterator impl: collecting characters yields the
/// string of exactly those characters.
#[verifier::external_body]
fn chars_to_string(v: Vec<char>) -> (r: String)
    ensures
        r@ == v@,
{
    v.into_iter().collect()
}

fn unhex2_x(h1: char, h2: char) -> (r: char)
    requires
        h1 == '0' || h1 == '1',
        is_hexd_low(h2),
    ensures
        r == unhex2(h1, h2),
{
    let lo: u32 = if '0' <= h2 && h2 <= '9' {
        h2 as u32 - '0' as u32
    } else {
        h2 as u32 - 'a' as u32 + 10
    };
    let v: u32 = if h1 == '1' { 16 + lo } else { lo };
    if v == 0 { '\u{0}' }
    else if v == 1 { '\u{1}' }
    else if v == 2 { '\u{2}' }
    else if v == 3 { '\u{3}' }
    else if v == 4 { '\u{4}' }
    else if v == 5 { '\u{5}' }
    else if v == 6 { '\u{6}' }
    else if v == 7 { '\u{7}' }
    else if v == 8 { '\u{8}' }
    else if v == 9 { '\u{9}' }
    else if v == 10 { '\u{a}' }
    else if v == 11 { '\u{b}' }
    else if v == 12 { '\u{c}' }
    else if v == 13 { '\u{d}' }
    else if v == 14 { '\u{e}' }
    else if v == 15 { '\u{f}' }
    else if v == 16 { '\u{10}' }
    else if v == 17 { '\u{11}' }
    else if v == 18 { '\u{12}' }
    else if v == 19 { '\u{13}' }
    else if v == 20 { '\u{14}' }
    else if v == 21 { '\u{15}' }
    else if v == 22 { '\u{16}' }
    else if v == 23 { '\u{17}' }
    else if v == 24 { '\u{18}' }
    else if v == 25 { '\u{19}' }
    else if v == 26 { '\u{1a}' }
    else if v == 27 { '\u{1b}' }
    else if v == 28 { '\u{1c}' }
    else if v == 29 { '\u{1d}' }
    else if v == 30 { '\u{1e}' }
    else if v == 31 { '\u{1f}' }
    else { '\u{1f}' }
}


fn expect_x(v: &Vec<char>, i: usize, lit: &str) -> (r: Option<usize>)
    requires
        i <= v@.len(),
    ensures
        match r {
            Some(j) => i <= j <= v@.len()
                && expect(v@.skip(i as int), lit@) == Some(v@.skip(j as int)),
            None => expect(v@.skip(i as int), lit@) is None,
        },
{
    let n = lit.unicode_len();
    let vn = v.len();
    if n > vn - i {
        assert(lit@.len() > v@.skip(i as int).len());
        return None;
    }
    let mut k: usize = 0;
    while k < n
        invariant
            0 <= k <= n,
            n == lit@.len(),
            i + n <= vn,
            vn == v@.len(),
            forall|m: int| 0 <= m < k ==> v@.skip(i as int)[m] == lit@[m],
        decreases n - k,
    {
        if v[i + k] != lit.get_char(k) {
            assert(v@.skip(i as int)[k as int] != lit@[k as int]);
            assert(v@.skip(i as int).take(lit@.len() as int)[k as int] == v@.skip(i as int)[k as int]);
            return None;
        }
        assert(v@.skip(i as int)[k as int] == v@[i + k]);
        k += 1;
    }
    assert(v@.skip(i as int).take(lit@.len() as int) =~= lit@);
    assert(v@.skip(i as int).skip(lit@.len() as int) =~= v@.skip(i + n));
    Some(i + n)
}

fn parse_str_body_x(v: &Vec<char>, i: usize) -> (r: Option<(Vec<char>, usize)>)
    requires
        i <= v@.len(),
    ensures
        match r {
            Some(tj) => i < tj.1 <= v@.len()
                && parse_str_body(v@.skip(i as int)) == Some((tj.0@, v@.skip(tj.1 as int))),
            None => parse_str_body(v@.skip(i as int)) is None,
        },
    decreases v@.len() - i,
{
    let ghost s = v@.skip(i as int);
    if i >= v.len() {
        return None;
    }
    let c0 = v[i];
    assert(s[0] == c0);
    if c0 == '"' {
        assert(s.drop_first() =~= v@.skip(i + 1));
        return Some((Vec::new(), i + 1));
    }
    if c0 == '\\' {
        if i + 1 >= v.len() {
            assert(s.len() < 2);
            return None;
        }
        let c1 = v[i + 1];
        assert(s[1] == c1);
        if c1 == '"' || c1 == '\\' {
            assert(s.skip(2) =~= v@.skip(i + 2));
            match parse_str_body_x(v, i + 2) {
                Some((t, j)) => {
                    let mut t = t;
                    t.insert(0, c1);
                    proof {
                        assert(t@ =~= seq![s[1]] + t@.skip(1));
                    }
                    Some((t, j))
                },
                None => None,
            }
        } else if c1 == 'u' {
            if v.len() - i < 6 {
                assert(s.len() < 6);
                return None;
            }
            let c2 = v[i + 2];
            let c3 = v[i + 3];
            let c4 = v[i + 4];
            let c5 = v[i + 5];
            assert(s[2] == c2 && s[3] == c3 && s[4] == c4 && s[5] == c5);
            let h2ok = ('0' <= c5 && c5 <= '9') || ('a' <= c5 && c5 <= 'f');
            if c2 == '0' && c3 == '0' && (c4 == '0' || c4 == '1') && h2ok {
                let c = unhex2_x(c4, c5);
                assert(s.skip(6) =~= v@.skip(i + 6));
                match parse_str_body_x(v, i + 6) {
                    Some((t, j)) => {
                        let mut t = t;
                        t.insert(0, c);
                        proof {
                            assert(t@ =~= seq![unhex2(s[4], s[5])] + t@.skip(1));
                        }
                        Some((t, j))
                    },
                    None => None,
                }
            } else {
                None
            }
        } else {
            None
        }
    } else {
        assert(s.drop_first() =~= v@.skip(i + 1));
        match parse_str_body_x(v, i + 1) {
            Some((t, j)) => {
                let mut t = t;
                t.insert(0, c0);
                proof {
                    assert(t@ =~= seq![s[0]] + t@.skip(1));
                }
                Some((t, j))
            },
            None => None,
        }
    }
}

proof fn lemma_val_nonneg(ds: Seq<char>)
    requires
        forall|m: int| 0 <= m < ds.len() ==> is_digit(#[trigger] ds[m]),
    ensures
        val_of(ds) >= 0,
    decreases ds.len(),
{
    if ds.len() > 0 {
        assert(forall|m: int| 0 <= m < ds.drop_last().len()
            ==> is_digit(#[trigger] ds.drop_last()[m]));
        lemma_val_nonneg(ds.drop_last());
        let a = val_of(ds.drop_last());
        assert(a * 10 >= 0) by (nonlinear_arith)
            requires a >= 0;
    }
}

/// A digit string's value only grows as digits are appended.
proof fn lemma_val_prefix_le(ds: Seq<char>, p: int)
    requires
        0 <= p <= ds.len(),
        forall|m: int| 0 <= m < ds.len() ==> is_digit(#[trigger] ds[m]),
    ensures
        val_of(ds.take(p)) <= val_of(ds),
    decreases ds.len() - p,
{
    if p == ds.len() {
        assert(ds.take(p) =~= ds);
    } else {
        lemma_val_prefix_le(ds, p + 1);
        let t = ds.take(p + 1);
        assert(forall|m: int| 0 <= m < t.len() ==> is_digit(#[trigger] t[m]));
        assert(t.drop_last() =~= ds.take(p));
        lemma_val_nonneg(ds.take(p));
        let a = val_of(ds.take(p));
        assert(a <= a * 10) by (nonlinear_arith)
            requires a >= 0;
        assert(is_digit(t.last()));
        assert(digit_val(t.last()) >= 0);
        assert(val_of(t) >= a);
    }
}

fn parse_num_x(v: &Vec<char>, i: usize, max: u64) -> (r: Option<(u64, usize)>)
    requires
        i <= v@.len(),
    ensures
        match r {
            Some(nj) => i < nj.1 <= v@.len()
                && parse_num(v@.skip(i as int), max as int)
                    == Some((nj.0 as int, v@.skip(nj.1 as int))),
            None => parse_num(v@.skip(i as int), max as int) is None,
        },
{
    let ghost s = v@.skip(i as int);
    let mut j: usize = i;
    while j < v.len() && '0' <= v[j] && v[j] <= '9'
        invariant
            i <= j <= v@.len(),
            forall|m: int| 0 <= m < j - i ==> is_digit(#[trigger] s[m]),
            s == v@.skip(i as int),
        decreases v@.len() - j,
    {
        assert(s[j - i] == v@[j as int]);
        j += 1;
    }
    proof {
        if j < v@.len() {
            assert(s[j - i] == v@[j as int]);
            assert(!is_digit(s[j - i]));
        }
        lemma_digits_len_at(s, j - i);
    }
    if j == i {
        return None;
    }
    let ghost ds = s.take(j - i);
    let mut acc: u64 = 0;
    let mut k: usize = i;
    while k < j
        invariant
            i <= k <= j <= v@.len(),
            s == v@.skip(i as int),
            ds == s.take(j - i),
            digits_len(s) == j - i,
            forall|m: int| 0 <= m < j - i ==> is_digit(#[trigger] s[m]),
            acc as int == val_of(ds.take(k - i)),
            acc <= max,
        decreases j - k,
    {
        let c = v[k];
        assert(s[k - i] == c);
        assert(ds[k - i] == c);
        assert(is_digit(c));
        let d: u64 = (c as u32 - '0' as u32) as u64;
        assert(d as int == digit_val(c));
        proof {
            assert(ds.take(k - i + 1).drop_last() =~= ds.take(k - i));
            assert(ds.take(k - i + 1).last() == ds[k - i]);
        }
        let ghost mi: int = max as int;
        let ghost ai: int = acc as int;
        let ghost di: int = d as int;
        if acc > max / 10 || (acc == max / 10 && d > max % 10) {
            proof {
                vstd::arithmetic::div_mod::lemma_fundamental_div_mod(mi, 10);
                let q = mi / 10;
                let rm = mi % 10;
                assert(0 <= rm < 10);
                assert(ai * 10 + di > mi) by (nonlinear_arith)
                    requires
                        (ai > q && di >= 0) || (ai == q && di > rm),
                        mi == q * 10 + rm,
                        0 <= rm < 10,
                        ai >= 0;
                assert(val_of(ds.take(k - i + 1)) > mi);
                assert forall|m: int| 0 <= m < ds.len() implies is_digit(#[trigger] ds[m]) by {
                    assert(ds[m] == s[m]);
                }
                lemma_val_prefix_le(ds, k - i + 1);
                assert(s.take(j - i) == ds);
                assert(digits_len(s) == j - i);
                assert(val_of(ds) >= val_of(ds.take(k - i + 1)));
            }
            return None;
        }
        proof {
            vstd::arithmetic::div_mod::lemma_fundamental_div_mod(mi, 10);
            let q = mi / 10;
            let rm = mi % 10;
            assert(0 <= rm < 10);
            assert(ai * 10 + di <= mi) by (nonlinear_arith)
                requires
                    (ai < q && di <= 9) || (ai == q && di <= rm),
                    mi == q * 10 + rm,
                    0 <= rm < 10,
                    ai >= 0,
                    di >= 0;
        }
        acc = acc * 10 + d;
        k += 1;
    }
    proof {
        assert(ds.take(j - i) =~= ds);
        assert(s.skip(j - i) =~= v@.skip(j as int));
    }
    Some((acc, j))
}

fn parse_int_x(v: &Vec<char>, i: usize) -> (r: Option<(i64, usize)>)
    requires
        i <= v@.len(),
    ensures
        match r {
            Some(nj) => i < nj.1 <= v@.len()
                && parse_int(v@.skip(i as int))
                    == Some((nj.0 as int, v@.skip(nj.1 as int))),
            None => parse_int(v@.skip(i as int)) is None,
        },
{
    let ghost s = v@.skip(i as int);
    if i < v.len() && v[i] == '-' {
        assert(s[0] == '-');
        assert(s.drop_first() =~= v@.skip(i + 1));
        match parse_num_x(v, i + 1, 0x8000000000000000) {
            Some((n, j)) => {
                let m: i64 = if n >= 0x8000000000000000 {
                    i64::MIN
                } else {
                    0 - (n as i64)
                };
                Some((m, j))
            },
            None => None,
        }
    } else {
        proof {
            if s.len() > 0 && s[0] == '-' {
                assert(s[0] == v@[i as int]);
            }
        }
        match parse_num_x(v, i, 0x7FFFFFFFFFFFFFFF) {
            Some((n, j)) => Some((n as i64, j)),
            None => None,
        }
    }
}

fn parse_vec_items_x(v: &Vec<char>, i: usize) -> (r: Option<(Vec<u32>, usize)>)
    requires
        i <= v@.len(),
    ensures
        match r {
            Some(vj) => i < vj.1 <= v@.len()
                && parse_vec_items(v@.skip(i as int))
                    == Some((vj.0@, v@.skip(vj.1 as int))),
            None => parse_vec_items(v@.skip(i as int)) is None,
        },
    decreases v@.len() - i,
{
    let ghost s = v@.skip(i as int);
    match parse_num_x(v, i, 0xFFFFFFFF) {
        Some((n, j)) => {
            let ghost rr = v@.skip(j as int);
            if j < v.len() && v[j] == ',' {
                assert(rr[0] == ',');
                assert(rr.len() < s.len());
                assert(rr.drop_first() =~= v@.skip(j + 1));
                match parse_vec_items_x(v, j + 1) {
                    Some((t, j2)) => {
                        let mut t = t;
                        t.insert(0, n as u32);
                        proof {
                            assert(t@ =~= seq![(n as int) as u32] + t@.skip(1));
                        }
                        Some((t, j2))
                    },
                    None => None,
                }
            } else if j < v.len() && v[j] == ']' {
                assert(rr[0] == ']');
                assert(rr.drop_first() =~= v@.skip(j + 1));
                let mut out: Vec<u32> = Vec::new();
                out.push(n as u32);
                proof {
                    assert(out@ =~= seq![(n as int) as u32]);
                }
                Some((out, j + 1))
            } else {
                proof {
                    if rr.len() > 0 {
                        assert(rr[0] == v@[j as int]);
                    }
                }
                None
            }
        },
        None => None,
    }
}

fn parse_vec_x(v: &Vec<char>, i: usize) -> (r: Option<(Vec<u32>, usize)>)
    requires
        i <= v@.len(),
    ensures
        match r {
            Some(vj) => i < vj.1 <= v@.len()
                && parse_vec_s(v@.skip(i as int))
                    == Some((vj.0@, v@.skip(vj.1 as int))),
            None => parse_vec_s(v@.skip(i as int)) is None,
        },
{
    let ghost s = v@.skip(i as int);
    if v.len() - i >= 2 && v[i] == '[' && v[i + 1] == ']' {
        assert(s[0] == '[' && s[1] == ']');
        assert(s.skip(2) =~= v@.skip(i + 2));
        return Some((Vec::new(), i + 2));
    }
    if i < v.len() && v[i] == '[' {
        assert(s[0] == '[');
        proof {
            if s.len() >= 2 && s[1] == ']' {
                assert(s[1] == v@[i + 1]);
            }
        }
        assert(s.drop_first() =~= v@.skip(i + 1));
        parse_vec_items_x(v, i + 1)
    } else {
        proof {
            if s.len() >= 1 && s[0] == '[' {
                assert(s[0] == v@[i as int]);
            }
        }
        None
    }
}

/// Parses one whole log line.
#[verifier::rlimit(100)]
pub fn parse_line(line: &Vec<char>) -> (r: Option<WalRecord>)
    ensures
        match r {
            Some(rec) => parse_line_s(line@) == Some(rec_v(rec)),
            None => parse_line_s(line@) is None,
        },
{
    assert(line@.skip(0) =~= line@);
    match expect_x(line, 0, "{\"type\":\"Upsert\",\"collection\":\"") {
        Some(i1) => {
            match parse_str_body_x(line, i1) {
                Some((col, i2)) => match expect_x(line, i2, ",\"id\":\"") {
                    Some(i3) => match parse_str_body_x(line, i3) {
                        Some((idv, i4)) => match expect_x(line, i4, ",\"vector\":") {
                            Some(i5) => match parse_vec_x(line, i5) {
                                Some((vecv, i6)) => match expect_x(line, i6, ",\"payload_json\":\"") {
                                    Some(i7) => match parse_str_body_x(line, i7) {
                                        Some((pay, i8)) => match expect_x(line, i8, ",\"ts_ms\":") {
                                            Some(i9) => match parse_int_x(line, i9) {
                                                Some((ts, i10)) => {
                                                    if line.len() - i10 == 1 && line[i10] == '}' {
                                                        proof {
                                                            assert(line@.skip(i10 as int)
                                                                =~= seq!['}']);
                                                        }
                                                        Some(WalRecord::Upsert {
                                                            collection: chars_to_string(col),
                                                            id: chars_to_string(idv),
                                                            vector: vecv,
                                                            payload_json: chars_to_string(pay),
                                                            ts_ms: ts,
                                                        })
                                                    } else {
                                                        proof {
                                                            let lft = line@.skip(i10 as int);
                                                            if lft =~= seq!['}'] {
                                                                assert(lft.len() == 1);
                                                                assert(lft[0] == '}');
                                                                assert(lft[0] == line@[i10 as int]);
                                                                assert(false);
                                                            }
                                                        }
                                                        None
                                                    }
                                                },
                                                None => None,
                                            },
                                            None => None,
                                        },
                                        None => None,
                                    },
                                    None => None,
                                },
                                None => None,
                            },
                            None => None,
                        },
                        None => None,
                    },
                    None => None,
                },
                None => None,
            }
        },
        None => match expect_x(line, 0, "{\"type\":\"CreateCollection\",\"name\":\"") {
            Some(i1) => match parse_str_body_x(line, i1) {
                Some((namev, i2)) => match expect_x(line, i2, ",\"dim\":") {
                    Some(i3) => match parse_num_x(line, i3, 0xFFFFFFFF) {
                        Some((dim, i4)) => match expect_x(line, i4, ",\"metric\":\"") {
                            Some(i5) => match parse_str_body_x(line, i5) {
                                Some((met, i6)) => match expect_x(line, i6, ",\"ts_ms\":") {
                                    Some(i7) => match parse_int_x(line, i7) {
                                        Some((ts, i8)) => {
                                            if line.len() - i8 == 1 && line[i8] == '}' {
                                                proof {
                                                    assert(line@.skip(i8 as int) =~= seq!['}']);
                                                }
                                                Some(WalRecord::CreateCollection {
                                                    name: chars_to_string(namev),
                                                    dim: dim as u32,
                                                    metric: chars_to_string(met),
                                                    ts_ms: ts,
                                                })
                                            } else {
                                                proof {
                                                    let lft = line@.skip(i8 as int);
                                                    if lft =~= seq!['}'] {
                                                        assert(lft.len() == 1);
                                                        assert(lft[0] == '}');
                                                        assert(lft[0] == line@[i8 as int]);
                                                        assert(false);
                                                    }
                                                }
                                                None
                                            }
                                        },
                                        None => None,
                                    },
                                    None => None,
                                },
                                None => None,
                            },
                            None => None,
                        },
                        None => None,
                    },
                    None => None,
                },
                None => None,
            },
            None => None,
        },
    }
}


// ---------------------------------------------------------------------------
// The log: lines, replay, and the Wal handle.
// ---------------------------------------------------------------------------

/// Index of the first newline, or the length if there is none.
pub open spec fn first_nl(s: Seq<char>) -> int
    decreases s.len(),
{
    if s.len() == 0 {
        0
    } else if s[0] == '\n' {
        0
    } else {
        1 + first_nl(s.drop_first())
    }
}

proof fn lemma_first_nl_range(s: Seq<char>)
    ensures
        0 <= first_nl(s) <= s.len(),
    decreases s.len(),
{
    if s.len() > 0 && s[0] != '\n' {
        lemma_first_nl_range(s.drop_first());
    }
}

proof fn lemma_first_nl_at(s: Seq<char>, j: int)
    requires
        0 <= j <= s.len(),
        forall|m: int| 0 <= m < j ==> #[trigger] s[m] != '\n',
        j < s.len() ==> s[j as int] == '\n',
    ensures
        first_nl(s) == j,
    decreases s.len(),
{
    if j == 0 {
    } else {
        assert(s[0] != '\n');
        assert(forall|m: int| 0 <= m < j - 1 ==> #[trigger] s.drop_first()[m] == s[m + 1]);
        assert(j - 1 < s.drop_first().len() ==> s.drop_first()[j - 1] == s[j as int]);
        lemma_first_nl_at(s.drop_first(), j - 1);
    }
}

/// The text split at newlines. A trailing newline closes the last line.
pub open spec fn wal_lines(s: Seq<char>) -> Seq<Seq<char>>
    decreases s.len(),
{
    if s.len() == 0 {
        Seq::empty()
    } else {
        let k = first_nl(s);
        if 0 <= k < s.len() {
            seq![s.take(k)] + wal_lines(s.skip(k + 1))
        } else {
            seq![s]
        }
    }
}

/// A line of nothing but spacing, skipped during replay.
pub open spec fn is_blank(l: Seq<char>) -> bool {
    forall|i: int| 0 <= i < l.len()
        ==> (#[trigger] l[i] == ' ' || l[i] == '\t' || l[i] == '\r')
}

/// Replay of the lines from index `i` on: blank lines are skipped, every
/// other line must parse; the first malformed line stops replay with its
/// index.
pub open spec fn replay_from(ls: Seq<Seq<char>>, i: int) -> Result<Seq<WalRecordV>, int>
    decreases ls.len() - i,
{
    if i < 0 || i >= ls.len() {
        Ok(Seq::empty())
    } else if is_blank(ls[i]) {
        replay_from(ls, i + 1)
    } else {
        match parse_line_s(ls[i]) {
            Some(r) => match replay_from(ls, i + 1) {
                Ok(t) => Ok(seq![r] + t),
                Err(e) => Err(e),
            },
            None => Err(i),
        }
    }
}

/// Replay of a whole log text.
pub open spec fn replay_of(s: Seq<char>) -> Result<Seq<WalRecordV>, int> {
    replay_from(wal_lines(s), 0)
}

/// Views of a record list.
pub open spec fn recs_view(s: Seq<WalRecord>) -> Seq<WalRecordV> {
    s.map_values(|r: WalRecord| rec_v(r))
}

/// The write-ahead log handle. It holds the full log text; reading the
/// text from disk on open and flushing appended suffixes is the calling
/// layer's concern, so appends and replay are pure and verified.
pub struct Wal {
    pub contents: Vec<char>,
}

impl Wal {
    /// Wraps existing log text; a log that does not exist yet is the
    /// empty text.
    pub fn open(existing: Vec<char>) -> (w: Wal)
        ensures
            w.contents@ == existing@,
    {
        Wal { contents: existing }
    }

    /// Appends one record as one line. The order of appends is the order
    /// of lines in the text.
    pub fn append(&mut self, rec: &WalRecord)
        ensures
            final(self).contents@ == old(self).contents@ + enc_line(rec_v(*rec)) + seq!['\n'],
    {
        let line = encode_line(rec);
        let mut i: usize = 0;
        let n = line.len();
        while i < n
            invariant
                0 <= i <= n,
                n == line@.len(),
                line@ == enc_line(rec_v(*rec)),
                self.contents@ == old(self).contents@ + line@.take(i as int),
            decreases n - i,
        {
            self.contents.push(line[i]);
            proof {
                assert(line@.take(i + 1) =~= line@.take(i as int).push(line@[i as int]));
            }
            i += 1;
        }
        self.contents.push('\n');
        proof {
            assert(line@.take(n as int) =~= line@);
            assert(final(self).contents@ =~= old(self).contents@ + enc_line(rec_v(*rec))
                + seq!['\n']);
        }
    }

    /// Replays the whole log: every record in order, or the index of the
    /// first corrupt line.
    pub fn replay(&self) -> (r: Result<Vec<WalRecord>, WalError>)
        ensures
            match r {
                Ok(v) => replay_of(self.contents@) == Ok::<Seq<WalRecordV>, int>(recs_view(v@)),
                Err(e) => {
                    &&& e is CorruptWal
                    &&& replay_of(self.contents@) == Err::<Seq<WalRecordV>, int>(
                        e->CorruptWal_0 as int,
                    )
                },
            },
    {
        let lines = split_lines(&self.contents);
        let ghost ls = lines@.map_values(|l: Vec<char>| l@);
        let mut out: Vec<WalRecord> = Vec::new();
        let mut i: usize = 0;
        while i < lines.len()
            invariant
                0 <= i <= lines@.len(),
                ls == lines@.map_values(|l: Vec<char>| l@),
                ls == wal_lines(self.contents@),
                (match replay_from(ls, i as int) {
                    Ok(t) => replay_of(self.contents@) == Ok::<Seq<WalRecordV>, int>(
                        recs_view(out@) + t,
                    ),
                    Err(e) => replay_of(self.contents@) == Err::<Seq<WalRecordV>, int>(e),
                }),
            decreases lines@.len() - i,
        {
            let line = &lines[i];
            assert(ls[i as int] == line@);
            if line_is_blank(line) {
                proof {
                    assert(replay_from(ls, i as int) == replay_from(ls, i + 1));
                }
                i += 1;
                continue;
            }
            match parse_line(line) {
                Some(rec) => {
                    let ghost old_out = out@;
                    out.push(rec);
                    proof {
                        assert(parse_line_s(ls[i as int]) == Some(rec_v(rec)));
                        assert(recs_view(out@) =~= recs_view(old_out).push(rec_v(rec)));
                        match replay_from(ls, i + 1) {
                            Ok(t) => {
                                assert(replay_from(ls, i as int)
                                    == Ok::<Seq<WalRecordV>, int>(seq![rec_v(rec)] + t));
                                assert(recs_view(old_out) + (seq![rec_v(rec)] + t)
                                    =~= recs_view(out@) + t);
                            },
                            Err(e) => {
                                assert(replay_from(ls, i as int)
                                    == Err::<Seq<WalRecordV>, int>(e));
                            },
                        }
                    }
                    i += 1;
                },
                None => {
                    proof {
                        assert(parse_line_s(ls[i as int]) is None);
                        assert(replay_from(ls, i as int)
                            == Err::<Seq<WalRecordV>, int>(i as int));
                    }
                    return Err(WalError::CorruptWal(i));
                },
            }
        }
        proof {
            assert(replay_from(ls, i as int) == Ok::<Seq<WalRecordV>, int>(Seq::empty()));
            assert(recs_view(out@) + Seq::<WalRecordV>::empty() =~= recs_view(out@));
        }
        Ok(out)
    }
}

/// Whether a line is nothing but spacing.
pub fn line_is_blank(l: &Vec<char>) -> (r: bool)
    ensures
        r == is_blank(l@),
{
    let mut i: usize = 0;
    while i < l.len()
        invariant
            0 <= i <= l@.len(),
            forall|m: int| 0 <= m < i
                ==> (#[trigger] l@[m] == ' ' || l@[m] == '\t' || l@[m] == '\r'),
        decreases l@.len() - i,
    {
        let c = l[i];
        if !(c == ' ' || c == '\t' || c == '\r') {
            return false;
        }
        i += 1;
    }
    true
}

/// Splits the log text into its lines.
pub fn split_lines(text: &Vec<char>) -> (r: Vec<Vec<char>>)
    ensures
        r@.map_values(|l: Vec<char>| l@) == wal_lines(text@),
{
    let mut out: Vec<Vec<char>> = Vec::new();
    let mut pos: usize = 0;
    let n = text.len();
    proof {
        assert(text@.skip(0) =~= text@);
    }
    while pos < n
        invariant
            0 <= pos <= n,
            n == text@.len(),
            wal_lines(text@) == out@.map_values(|l: Vec<char>| l@)
                + wal_lines(text@.skip(pos as int)),
        decreases n - pos,
    {
        let ghost s = text@.skip(pos as int);
        let mut j: usize = pos;
        while j < n && text[j] != '\n'
            invariant
                pos <= j <= n,
                n == text@.len(),
                s == text@.skip(pos as int),
                forall|m: int| 0 <= m < j - pos ==> #[trigger] s[m] != '\n',
            decreases n - j,
        {
            assert(s[j - pos] == text@[j as int]);
            j += 1;
        }
        proof {
            if j < n {
                assert(s[j - pos] == text@[j as int]);
            }
            lemma_first_nl_at(s, j - pos);
        }
        let mut line: Vec<char> = Vec::new();
        let mut k: usize = pos;
        while k < j
            invariant
                pos <= k <= j <= n,
                n == text@.len(),
                line@ == text@.subrange(pos as int, k as int),
            decreases j - k,
        {
            line.push(text[k]);
            proof {
                assert(text@.subrange(pos as int, k + 1)
                    =~= text@.subrange(pos as int, k as int).push(text@[k as int]));
            }
            k += 1;
        }
        proof {
            assert(line@ =~= s.take(j - pos));
        }
        let ghost old_out = out@;
        out.push(line);
        if j < n {
            proof {
                assert(s.skip(j - pos + 1) =~= text@.skip(j + 1));
                assert(wal_lines(s) =~= seq![s.take(j - pos)] + wal_lines(text@.skip(j + 1)));
                assert(out@.map_values(|l: Vec<char>| l@)
                    =~= old_out.map_values(|l: Vec<char>| l@) + seq![line@]);
            }
            pos = j + 1;
        } else {
            proof {
                assert(s.take(j - pos) =~= s);
                assert(wal_lines(s) =~= seq![s]);
                assert(out@.map_values(|l: Vec<char>| l@)
                    =~= old_out.map_values(|l: Vec<char>| l@) + seq![line@]);
                assert(text@.skip(n as int) =~= Seq::<char>::empty());
            }
            pos = n;
        }
    }
    proof {
        assert(text@.skip(n as int) =~= Seq::<char>::empty());
        assert(wal_lines(text@.skip(pos as int)) =~= Seq::<Seq<char>>::empty());
        assert(out@.map_values(|l: Vec<char>| l@) + Seq::<Seq<char>>::empty()
            =~= out@.map_values(|l: Vec<char>| l@));
    }
    out
}


// ---------------------------------------------------------------------------
// The log round trip: replaying an encoded log yields the records back.
// ---------------------------------------------------------------------------

/// The text a list of records encodes to: one line per record.
pub open spec fn enc_log(rs: Seq<WalRecordV>) -> Seq<char>
    decreases rs.len(),
{
    if rs.len() == 0 {
        Seq::empty()
    } else {
        enc_line(rs[0]) + seq!['\n'] + enc_log(rs.drop_first())
    }
}

/// No newline hides in an escaped string.
proof fn lemma_esc_clean(t: Seq<char>)
    ensures
        forall|i: int| 0 <= i < esc(t).len() ==> #[trigger] esc(t)[i] != '\n',
    decreases t.len(),
{
    if t.len() > 0 {
        lemma_esc_clean(t.drop_last());
        let c = t.last();
        let a = esc(t.drop_last());
        assert(forall|i: int| 0 <= i < esc_char(c).len() ==> #[trigger] esc_char(c)[i] != '\n');
        assert forall|i: int| 0 <= i < esc(t).len() implies #[trigger] esc(t)[i] != '\n' by {
            if i < a.len() {
                assert(esc(t)[i] == a[i]);
            } else {
                assert(esc(t)[i] == esc_char(c)[i - a.len()]);
            }
        }
    }
}

/// No newline hides in a decimal number.
proof fn lemma_dec_clean(n: int)
    requires
        n >= 0,
    ensures
        forall|i: int| 0 <= i < dec_u(n).len() ==> #[trigger] dec_u(n)[i] != '\n',
{
    lemma_dec_u(n);
    assert forall|i: int| 0 <= i < dec_u(n).len() implies #[trigger] dec_u(n)[i] != '\n' by {
        assert(is_digit(dec_u(n)[i]));
    }
}

proof fn lemma_dec_i_clean(n: int)
    ensures
        forall|i: int| 0 <= i < dec_i(n).len() ==> #[trigger] dec_i(n)[i] != '\n',
{
    if n < 0 {
        lemma_dec_clean(0 - n);
        assert(forall|i: int| 0 <= i < dec_i(n).len()
            ==> #[trigger] dec_i(n)[i] == (seq!['-'] + dec_u(0 - n))[i]);
    } else {
        lemma_dec_clean(n);
    }
}

/// No newline hides in an encoded vector.
proof fn lemma_vec_items_clean(v: Seq<u32>)
    ensures
        forall|i: int| 0 <= i < enc_vec_items(v).len()
            ==> #[trigger] enc_vec_items(v)[i] != '\n',
    decreases v.len(),
{
    if v.len() == 0 {
    } else if v.len() == 1 {
        lemma_dec_clean(v[0] as int);
    } else {
        lemma_vec_items_clean(v.drop_last());
        lemma_dec_clean(v.last() as int);
        let a = enc_vec_items(v.drop_last());
        let b = dec_u(v.last() as int);
        assert forall|i: int| 0 <= i < enc_vec_items(v).len()
            implies #[trigger] enc_vec_items(v)[i] != '\n' by {
            if i < a.len() {
                assert(enc_vec_items(v)[i] == a[i]);
            } else if i == a.len() {
                assert(enc_vec_items(v)[i] == ',');
            } else {
                assert(enc_vec_items(v)[i] == b[i - a.len() - 1]);
            }
        }
    }
}

proof fn lemma_vec_clean(v: Seq<u32>)
    ensures
        forall|i: int| 0 <= i < enc_vec(v).len() ==> #[trigger] enc_vec(v)[i] != '\n',
{
    lemma_vec_items_clean(v);
}

/// An encoded line holds no newline, is not blank, and starts with `{`.
proof fn lemma_enc_line_clean(r: WalRecordV)
    ensures
        forall|i: int| 0 <= i < enc_line(r).len() ==> #[trigger] enc_line(r)[i] != '\n',
        enc_line(r).len() > 0,
        enc_line(r)[0] == '{',
        !is_blank(enc_line(r)),
{
    reveal_strlit("{\"type\":\"Upsert\",\"collection\":\"");
    reveal_strlit("{\"type\":\"CreateCollection\",\"name\":\"");
    reveal_strlit(",\"id\":\"");
    reveal_strlit(",\"vector\":");
    reveal_strlit(",\"payload_json\":\"");
    reveal_strlit(",\"ts_ms\":");
    reveal_strlit(",\"dim\":");
    reveal_strlit(",\"metric\":\"");
    match r {
        WalRecordV::UpsertV { collection, id, vector, payload_json, ts_ms } => {
            lemma_esc_clean(collection);
            lemma_esc_clean(id);
            lemma_esc_clean(payload_json);
            lemma_vec_clean(vector);
            lemma_dec_i_clean(ts_ms);
            let lu = "{\"type\":\"Upsert\",\"collection\":\""@;
            assert(forall|i: int| 0 <= i < lu.len() ==> #[trigger] lu[i] != '\n');
            assert(forall|i: int| 0 <= i < ",\"id\":\""@.len()
                ==> #[trigger] ",\"id\":\""@[i] != '\n');
            assert(forall|i: int| 0 <= i < ",\"vector\":"@.len()
                ==> #[trigger] ",\"vector\":"@[i] != '\n');
            assert(forall|i: int| 0 <= i < ",\"payload_json\":\""@.len()
                ==> #[trigger] ",\"payload_json\":\""@[i] != '\n');
            assert(forall|i: int| 0 <= i < ",\"ts_ms\":"@.len()
                ==> #[trigger] ",\"ts_ms\":"@[i] != '\n');
            assert(enc_line(r)[0] == lu[0]);
        },
        WalRecordV::CreateV { name, dim, metric, ts_ms } => {
            lemma_esc_clean(name);
            lemma_esc_clean(metric);
            if dim >= 0 {
                lemma_dec_clean(dim);
            } else {
                assert(dec_u(dim) =~= seq![hexd(0)]);
            }
            lemma_dec_i_clean(ts_ms);
            let lc = "{\"type\":\"CreateCollection\",\"name\":\""@;
            assert(forall|i: int| 0 <= i < lc.len() ==> #[trigger] lc[i] != '\n');
            assert(forall|i: int| 0 <= i < ",\"dim\":"@.len()
                ==> #[trigger] ",\"dim\":"@[i] != '\n');
            assert(forall|i: int| 0 <= i < ",\"metric\":\""@.len()
                ==> #[trigger] ",\"metric\":\""@[i] != '\n');
            assert(forall|i: int| 0 <= i < ",\"ts_ms\":"@.len()
                ==> #[trigger] ",\"ts_ms\":"@[i] != '\n');
            assert(enc_line(r)[0] == lc[0]);
        },
    }
}

/// Prepending a line shifts replay by one position.
proof fn lemma_replay_cons(l: Seq<char>, ls: Seq<Seq<char>>, i: int)
    requires
        0 <= i,
    ensures
        replay_from(seq![l] + ls, i + 1) == (match replay_from(ls, i) {
            Ok(t) => Ok::<Seq<WalRecordV>, int>(t),
            Err(e) => Err::<Seq<WalRecordV>, int>(e + 1),
        }),
    decreases (if i >= ls.len() { 0int } else { ls.len() - i }),
{
    let full = seq![l] + ls;
    if i >= ls.len() {
    } else {
        assert(full[i + 1] == ls[i]);
        lemma_replay_cons(l, ls, i + 1);
    }
}

/// The round trip of a whole log: replaying the text that encodes a list
/// of records yields exactly those records.
#[verifier::rlimit(100)]
pub proof fn lemma_wal_log_round_trip(rs: Seq<WalRecordV>)
    requires
        forall|i: int| 0 <= i < rs.len() ==> rec_v_wf(#[trigger] rs[i]),
    ensures
        replay_of(enc_log(rs)) == Ok::<Seq<WalRecordV>, int>(rs),
    decreases rs.len(),
{
    if rs.len() == 0 {
        assert(wal_lines(enc_log(rs)) =~= Seq::<Seq<char>>::empty());
        assert(rs =~= Seq::<WalRecordV>::empty());
    } else {
        let r0 = rs[0];
        let rest = rs.drop_first();
        assert(forall|i: int| 0 <= i < rest.len() ==> rec_v_wf(#[trigger] rest[i])) by {
            assert(forall|i: int| 0 <= i < rest.len() ==> rest[i] == #[trigger] rs[i + 1]);
        }
        lemma_wal_log_round_trip(rest);
        let line = enc_line(r0);
        lemma_enc_line_clean(r0);
        let s = enc_log(rs);
        assert(s =~= line + seq!['\n'] + enc_log(rest));
        assert(forall|m: int| 0 <= m < line.len() ==> #[trigger] s[m] != '\n') by {
            assert(forall|m: int| 0 <= m < line.len() ==> #[trigger] s[m] == line[m]);
        }
        assert(s[line.len() as int] == '\n');
        lemma_first_nl_at(s, line.len() as int);
        assert(s.take(line.len() as int) =~= line);
        assert(s.skip(line.len() as int + 1) =~= enc_log(rest));
        assert(wal_lines(s) =~= seq![line] + wal_lines(enc_log(rest)));
        lemma_parse_enc_line(r0);
        lemma_replay_cons(line, wal_lines(enc_log(rest)), 0);
        let full = seq![line] + wal_lines(enc_log(rest));
        assert(full[0] == line);
        assert(replay_from(full, 1) == Ok::<Seq<WalRecordV>, int>(rest));
        assert(replay_from(full, 0) == Ok::<Seq<WalRecordV>, int>(seq![r0] + rest));
        assert(seq![r0] + rest =~= rs);
    }
}


/// The lines of an encoded log: the first record's line, then the lines
/// of the rest; none of them blank.
pub proof fn lemma_wal_lines_of_log(rs: Seq<WalRecordV>)
    requires
        rs.len() > 0,
    ensures
        wal_lines(enc_log(rs)) == seq![enc_line(rs[0])] + wal_lines(enc_log(rs.drop_first())),
        !is_blank(enc_line(rs[0])),
{
    let r0 = rs[0];
    let line = enc_line(r0);
    lemma_enc_line_clean(r0);
    let s = enc_log(rs);
    assert(s =~= line + seq!['\n'] + enc_log(rs.drop_first()));
    assert(forall|m: int| 0 <= m < line.len() ==> #[trigger] s[m] != '\n') by {
        assert(forall|m: int| 0 <= m < line.len() ==> #[trigger] s[m] == line[m]);
    }
    assert(s[line.len() as int] == '\n');
    lemma_first_nl_at(s, line.len() as int);
    assert(s.take(line.len() as int) =~= line);
    assert(s.skip(line.len() as int + 1) =~= enc_log(rs.drop_first()));
    assert(wal_lines(s) =~= seq![line] + wal_lines(enc_log(rs.drop_first())));
}

} // verus!
