use vstd::prelude::*;

use crate::event::AdditionalV;
use crate::event::Event;
use crate::event::EventV;
use crate::event::Timestamp;
use crate::event::TimestampV;
use crate::event::Timezone;
use crate::event::TimezoneV;
use crate::event::view_opt_add;
use crate::event::view_opt_ts;
use crate::event::view_opt_tz;
use crate::foreign::b64_decode;
use crate::foreign::b64_encode;
use crate::foreign::b64_of;
use crate::foreign::chars_to_string;
use crate::foreign::str_to_chars;
use crate::text::dec_int;
use crate::text::esc;
use crate::text::lemma_esc_quote_unique;
use crate::text::lemma_prefix_index;
use crate::text::lemma_prefix_split;
use crate::text::lemma_subrange_join;
use crate::text::maximal_int_at;
use crate::text::is_digit;
use crate::text::lemma_maximal_int_unique;
use crate::text::parse_i64;
use crate::text::prefix_at;
use crate::text::scan_string;
use crate::text::fmt_i64;
use crate::text::push_escaped;

verus! {

/// A timestamp model whose fields fit the machine representation.
pub open spec fn wf_ts(o: Option<TimestampV>) -> bool {
    match o {
        Option::None => true,
        Option::Some(t) => {
            &&& -0x8000_0000_0000_0000 <= t.seconds <= 0x7fff_ffff_ffff_ffff
            &&& -0x8000_0000 <= t.nanos <= 0x7fff_ffff
        },
    }
}

/// A time zone model whose offset fits the machine representation.
pub open spec fn wf_tz(o: Option<TimezoneV>) -> bool {
    match o {
        Option::None => true,
        Option::Some(z) => -0x8000_0000 <= z.offset <= 0x7fff_ffff,
    }
}

/// An event model whose numeric fields fit their machine representations.
/// The model of every `Event` value is well formed.
pub open spec fn wf_event(m: EventV) -> bool {
    &&& wf_ts(m.timestamp)
    &&& wf_ts(m.synced)
    &&& wf_tz(m.timezone)
}

/// The escaped body and closing quote of a quoted string whose opening
/// quote the surrounding text supplies.
pub open spec fn qtail(v: Seq<char>) -> Seq<char> {
    esc(v) + seq!['"']
}

/// The record text of an optional timestamp: `null`, or a two-element
/// array of seconds and nanoseconds.
pub open spec fn enc_ts(o: Option<TimestampV>) -> Seq<char> {
    match o {
        Option::None => "null"@,
        Option::Some(t) => seq!['['] + (dec_int(t.seconds) + (seq![','] + (dec_int(t.nanos)
            + seq![']']))),
    }
}

/// The record text of an optional time zone: `null`, or an object with
/// `name` and `offset` fields.
pub open spec fn enc_tz(o: Option<TimezoneV>) -> Seq<char> {
    match o {
        Option::None => "null"@,
        Option::Some(z) => "{\"name\":\""@ + (qtail(z.name) + (",\"offset\":"@ + (dec_int(z.offset)
            + seq!['}']))),
    }
}

/// The record text of a boolean.
pub open spec fn enc_bool(b: bool) -> Seq<char> {
    if b {
        "true"@
    } else {
        "false"@
    }
}

/// The record text of an optional payload: `null`, or an object with
/// exactly one of the keys `bytes`, `str` or `yaml`.
pub open spec fn enc_add(o: Option<AdditionalV>) -> Seq<char> {
    match o {
        Option::None => "null"@,
        Option::Some(AdditionalV::Bytes(b)) => "{\"bytes\":\""@ + (qtail(b64_of(b)) + seq!['}']),
        Option::Some(AdditionalV::Str(t)) => "{\"str\":\""@ + (qtail(t) + seq!['}']),
        Option::Some(AdditionalV::Yaml(t)) => "{\"yaml\":\""@ + (qtail(t) + seq!['}']),
    }
}

/// The record text of an event up to and including its `uuid` field.
pub open spec fn enc_p1(m: EventV) -> Seq<char> {
    "{\"uuid\":\""@ + qtail(b64_of(m.uuid))
}

/// ... up to and including the `account` field.
pub open spec fn enc_p2(m: EventV) -> Seq<char> {
    enc_p1(m) + ",\"account\":\""@ + qtail(b64_of(m.account))
}

/// ... up to and including the `application` field.
pub open spec fn enc_p3(m: EventV) -> Seq<char> {
    enc_p2(m) + ",\"application\":\""@ + qtail(m.application)
}

/// ... up to and including the `type` field.
pub open spec fn enc_p4(m: EventV) -> Seq<char> {
    enc_p3(m) + ",\"type\":\""@ + qtail(m.type_)
}

/// ... up to and including the `name` field.
pub open spec fn enc_p5(m: EventV) -> Seq<char> {
    enc_p4(m) + ",\"name\":\""@ + qtail(m.name)
}

/// ... up to and including the `description` field.
pub open spec fn enc_p6(m: EventV) -> Seq<char> {
    enc_p5(m) + ",\"description\":\""@ + qtail(m.description)
}

/// ... up to and including the `timestamp` field.
pub open spec fn enc_p7(m: EventV) -> Seq<char> {
    enc_p6(m) + ",\"timestamp\":"@ + enc_ts(m.timestamp)
}

/// ... up to and including the `timezone` field.
pub open spec fn enc_p8(m: EventV) -> Seq<char> {
    enc_p7(m) + ",\"timezone\":"@ + enc_tz(m.timezone)
}

/// ... up to and including the `real_time` field.
pub open spec fn enc_p9(m: EventV) -> Seq<char> {
    enc_p8(m) + ",\"real_time\":"@ + enc_bool(m.real_time)
}

/// ... up to and including the `synced` field.
pub open spec fn enc_p10(m: EventV) -> Seq<char> {
    enc_p9(m) + ",\"synced\":"@ + enc_ts(m.synced)
}

/// ... up to and including the `additional` field.
pub open spec fn enc_p11(m: EventV) -> Seq<char> {
    enc_p10(m) + ",\"additional\":"@ + enc_add(m.additional)
}

/// The full record text of an event: one compact object whose keys stand
/// in a fixed order, with `uuid` and `account` written as base64 text.
pub open spec fn enc_event(m: EventV) -> Seq<char> {
    enc_p11(m) + seq!['}']
}

/// Appends the characters of a literal.
fn push_lit(out: &mut Vec<char>, lit: &str)
    ensures
        final(out)@ == old(out)@ + lit@,
{
    let mut cs = str_to_chars(lit);
    out.append(&mut cs);
}

/// Appends the escaped body and closing quote of a string field.
fn push_qtail_str(out: &mut Vec<char>, s: &String)
    ensures
        final(out)@ == old(out)@ + qtail(s@),
{
    let cs = str_to_chars(s.as_str());
    push_escaped(out, &cs);
    out.push('"');
    proof {
        assert(out@ =~= old(out)@ + qtail(s@));
    }
}

/// Appends the escaped base64 text and closing quote of a byte field.
fn push_qtail_b64(out: &mut Vec<char>, b: &Vec<u8>)
    ensures
        final(out)@ == old(out)@ + qtail(b64_of(b@)),
{
    let t = b64_encode(b);
    let cs = str_to_chars(t.as_str());
    push_escaped(out, &cs);
    out.push('"');
    proof {
        assert(out@ =~= old(out)@ + qtail(b64_of(b@)));
    }
}

/// Appends a decimal integer.
fn push_i64(out: &mut Vec<char>, x: i64)
    ensures
        final(out)@ == old(out)@ + dec_int(x as int),
{
    let mut d = fmt_i64(x);
    out.append(&mut d);
}

/// Appends the record text of an optional timestamp.
fn push_ts(out: &mut Vec<char>, o: &Option<Timestamp>)
    ensures
        final(out)@ == old(out)@ + enc_ts(view_opt_ts(*o)),
{
    match o {
        Option::None => {
            push_lit(out, "null");
        }
        Option::Some(t) => {
            out.push('[');
            push_i64(out, t.seconds);
            out.push(',');
            push_i64(out, t.nanos as i64);
            out.push(']');
            proof {
                assert(out@ =~= old(out)@ + enc_ts(view_opt_ts(*o)));
            }
        }
    }
}

/// Appends the record text of an optional time zone.
fn push_tz(out: &mut Vec<char>, o: &Option<Timezone>)
    ensures
        final(out)@ == old(out)@ + enc_tz(view_opt_tz(*o)),
{
    match o {
        Option::None => {
            push_lit(out, "null");
        }
        Option::Some(z) => {
            push_lit(out, "{\"name\":\"");
            push_qtail_str(out, &z.name);
            push_lit(out, ",\"offset\":");
            push_i64(out, z.offset as i64);
            out.push('}');
            proof {
                assert(out@ =~= old(out)@ + enc_tz(view_opt_tz(*o)));
            }
        }
    }
}

/// Appends the record text of a boolean.
fn push_bool(out: &mut Vec<char>, b: bool)
    ensures
        final(out)@ == old(out)@ + enc_bool(b),
{
    if b {
        push_lit(out, "true");
    } else {
        push_lit(out, "false");
    }
}

/// Appends the record text of an optional payload.
fn push_add(out: &mut Vec<char>, o: &Option<crate::event::Additional>)
    ensures
        final(out)@ == old(out)@ + enc_add(view_opt_add(*o)),
{
    match o {
        Option::None => {
            push_lit(out, "null");
        }
        Option::Some(crate::event::Additional::Bytes(b)) => {
            push_lit(out, "{\"bytes\":\"");
            push_qtail_b64(out, b);
            out.push('}');
            proof {
                assert(out@ =~= old(out)@ + enc_add(view_opt_add(*o)));
            }
        }
        Option::Some(crate::event::Additional::Str(t)) => {
            push_lit(out, "{\"str\":\"");
            push_qtail_str(out, t);
            out.push('}');
            proof {
                assert(out@ =~= old(out)@ + enc_add(view_opt_add(*o)));
            }
        }
        Option::Some(crate::event::Additional::Yaml(t)) => {
            push_lit(out, "{\"yaml\":\"");
            push_qtail_str(out, t);
            out.push('}');
            proof {
                assert(out@ =~= old(out)@ + enc_add(view_opt_add(*o)));
            }
        }
    }
}

/// Encodes an event as its record text.
pub fn encode_event(e: &Event) -> (r: String)
    ensures
        r@ == enc_event(e@),
{
    let mut out: Vec<char> = Vec::new();
    push_lit(&mut out, "{\"uuid\":\"");
    push_qtail_b64(&mut out, &e.uuid);
    proof {
        assert(out@ =~= enc_p1(e@));
    }
    push_lit(&mut out, ",\"account\":\"");
    push_qtail_b64(&mut out, &e.account);
    proof {
        assert(out@ =~= enc_p2(e@));
    }
    push_lit(&mut out, ",\"application\":\"");
    push_qtail_str(&mut out, &e.application);
    proof {
        assert(out@ =~= enc_p3(e@));
    }
    push_lit(&mut out, ",\"type\":\"");
    push_qtail_str(&mut out, &e.type_);
    proof {
        assert(out@ =~= enc_p4(e@));
    }
    push_lit(&mut out, ",\"name\":\"");
    push_qtail_str(&mut out, &e.name);
    proof {
        assert(out@ =~= enc_p5(e@));
    }
    push_lit(&mut out, ",\"description\":\"");
    push_qtail_str(&mut out, &e.description);
    proof {
        assert(out@ =~= enc_p6(e@));
    }
    push_lit(&mut out, ",\"timestamp\":");
    push_ts(&mut out, &e.timestamp);
    proof {
        assert(out@ =~= enc_p7(e@));
    }
    push_lit(&mut out, ",\"timezone\":");
    push_tz(&mut out, &e.timezone);
    proof {
        assert(out@ =~= enc_p8(e@));
    }
    push_lit(&mut out, ",\"real_time\":");
    push_bool(&mut out, e.real_time);
    proof {
        assert(out@ =~= enc_p9(e@));
    }
    push_lit(&mut out, ",\"synced\":");
    push_ts(&mut out, &e.synced);
    proof {
        assert(out@ =~= enc_p10(e@));
    }
    push_lit(&mut out, ",\"additional\":");
    push_add(&mut out, &e.additional);
    proof {
        assert(out@ =~= enc_p11(e@));
    }
    out.push('}');
    proof {
        assert(out@ =~= enc_event(e@));
    }
    crate::foreign::chars_to_string(&out)
}


/// Matches an exact literal at `s[i..]`.
fn expect_lit(s: &Vec<char>, i: usize, lit: &str) -> (r: Option<usize>)
    requires
        i <= s@.len(),
    ensures
        match r {
            Option::Some(j) => j == i + lit@.len() && i <= j <= s@.len() && prefix_at(
                s@,
                i as int,
                lit@,
            ),
            Option::None => !prefix_at(s@, i as int, lit@),
        },
{
    let cs = str_to_chars(lit);
    let n: usize = s.len();
    if n - i < cs.len() {
        return Option::None;
    }
    let mut k: usize = 0;
    while k < cs.len()
        invariant
            k <= cs@.len(),
            i + cs@.len() <= n,
            n == s@.len(),
            cs@ == lit@,
            forall|t: int| 0 <= t < k ==> s@[i + t] == lit@[t],
        decreases cs@.len() - k,
    {
        if s[i + k] != cs[k] {
            proof {
                if prefix_at(s@, i as int, lit@) {
                    lemma_prefix_index(s@, i as int, lit@, k as int);
                }
            }
            return Option::None;
        }
        k = k + 1;
    }
    proof {
        assert(s@.subrange(i as int, i + lit@.len()) =~= lit@);
    }
    Option::Some(i + cs.len())
}

/// Matches one exact character at `s[i]`.
fn expect_char(s: &Vec<char>, i: usize, c: char) -> (r: Option<usize>)
    requires
        i <= s@.len(),
    ensures
        match r {
            Option::Some(j) => j == i + 1 && j <= s@.len() && s@[i as int] == c,
            Option::None => !(i < s@.len() && s@[i as int] == c),
        },
{
    if i < s.len() && s[i] == c {
        Option::Some(i + 1)
    } else {
        Option::None
    }
}

/// Parses the escaped body and closing quote of a string field.
fn parse_qtail(s: &Vec<char>, i: usize) -> (r: Option<(String, usize)>)
    requires
        i <= s@.len(),
    ensures
        (match r {
            Option::Some(p) => {
                &&& i <= p.1 <= s@.len()
                &&& s@.subrange(i as int, p.1 as int) == qtail(p.0@)
                &&& p.1 == i + qtail(p.0@).len()
            },
            Option::None => true,
        }),
        forall|v: Seq<char>|
            prefix_at(s@, i as int, qtail(v)) ==> (r is Some && #[trigger] (r->0).0@ == v
                && (r->0).1 == i + qtail(v).len()),
{
    match scan_string(s, i) {
        Option::None => {
            proof {
                assert forall|v: Seq<char>| !prefix_at(s@, i as int, qtail(v)) by {
                    assert(qtail(v) == esc(v) + seq!['"']);
                }
            }
            Option::None
        }
        Option::Some((w, j)) => {
            let t = chars_to_string(&w);
            proof {
                assert(s@.subrange(i as int, j as int) == esc(w@) + seq!['"']);
                assert(prefix_at(s@, i as int, esc(w@) + seq!['"'])) by {
                    assert(s@.subrange(i as int, i + (esc(w@) + seq!['"']).len()) == esc(w@)
                        + seq!['"']);
                }
                assert forall|v: Seq<char>| prefix_at(s@, i as int, qtail(v)) implies t@ == v && j
                    == i + qtail(v).len() by {
                    lemma_esc_quote_unique(s@, i as int, w@, v);
                }
            }
            Option::Some((t, j))
        }
    }
}

/// Parses the escaped base64 text and closing quote of a byte field,
/// accepting exactly the canonical base64 form.
fn parse_b64tail(s: &Vec<char>, i: usize) -> (r: Option<(Vec<u8>, usize)>)
    requires
        i <= s@.len(),
    ensures
        (match r {
            Option::Some(p) => {
                &&& i <= p.1 <= s@.len()
                &&& s@.subrange(i as int, p.1 as int) == qtail(b64_of(p.0@))
                &&& p.1 == i + qtail(b64_of(p.0@)).len()
            },
            Option::None => true,
        }),
        forall|bb: Seq<u8>|
            prefix_at(s@, i as int, qtail(b64_of(bb))) ==> (r is Some && #[trigger] (r->0).0@ == bb
                && (r->0).1 == i + qtail(b64_of(bb)).len()),
{
    match scan_string(s, i) {
        Option::None => {
            proof {
                assert forall|bb: Seq<u8>| !prefix_at(s@, i as int, qtail(b64_of(bb))) by {
                    assert(qtail(b64_of(bb)) == esc(b64_of(bb)) + seq!['"']);
                }
            }
            Option::None
        }
        Option::Some((w, j)) => {
            let text = chars_to_string(&w);
            proof {
                assert(s@.subrange(i as int, j as int) == esc(w@) + seq!['"']);
                assert(prefix_at(s@, i as int, esc(w@) + seq!['"'])) by {
                    assert(s@.subrange(i as int, i + (esc(w@) + seq!['"']).len()) == esc(w@)
                        + seq!['"']);
                }
                assert forall|bb: Seq<u8>| prefix_at(s@, i as int, qtail(b64_of(bb))) implies text@
                    == b64_of(bb) && j == i + qtail(b64_of(bb)).len() by {
                    lemma_esc_quote_unique(s@, i as int, w@, b64_of(bb));
                }
            }
            match b64_decode(&text) {
                Option::None => {
                    Option::None
                }
                Option::Some(bytes) => {
                    let re = b64_encode(&bytes);
                    if re == text {
                        proof {
                            assert(text@ == b64_of(bytes@));
                            assert(s@.subrange(i as int, j as int) == qtail(b64_of(bytes@)));
                        }
                        Option::Some((bytes, j))
                    } else {
                        Option::None
                    }
                }
            }
        }
    }
}


/// Decomposes the array form of an encoded optional timestamp.
proof fn lemma_enc_ts_array(s: Seq<char>, i: int, t: TimestampV)
    requires
        prefix_at(s, i, enc_ts(Option::Some(t))),
    ensures
        i < s.len(),
        s[i] == '[',
        maximal_int_at(s, i + 1, t.seconds),
        s[i + 1 + dec_int(t.seconds).len()] == ',',
        maximal_int_at(s, i + 2 + dec_int(t.seconds).len(), t.nanos),
        s[i + 2 + dec_int(t.seconds).len() + dec_int(t.nanos).len()] == ']',
        enc_ts(Option::Some(t)).len() == 3 + dec_int(t.seconds).len() + dec_int(t.nanos).len(),
        i + enc_ts(Option::Some(t)).len() <= s.len(),
{
    let a = seq!['['];
    let b = dec_int(t.seconds);
    let c = seq![','];
    let d = dec_int(t.nanos);
    let e = seq![']'];
    assert(enc_ts(Option::Some(t)) == a + (b + (c + (d + e))));
    lemma_prefix_split(s, i, a, b + (c + (d + e)));
    lemma_prefix_index(s, i, a, 0);
    lemma_prefix_split(s, i + 1, b, c + (d + e));
    lemma_prefix_split(s, i + 1 + b.len(), c, d + e);
    lemma_prefix_index(s, i + 1 + b.len(), c, 0);
    lemma_prefix_split(s, i + 2 + b.len(), d, e);
    lemma_prefix_index(s, i + 2 + b.len() + d.len(), e, 0);
    assert(',' as u32 == 0x2c);
    assert(']' as u32 == 0x5d);
    assert(maximal_int_at(s, i + 1, t.seconds)) by {
        assert(s.subrange(i + 1, i + 1 + b.len()) == b);
        assert(!is_digit(s[i + 1 + b.len()]));
    }
    assert(maximal_int_at(s, i + 2 + b.len(), t.nanos)) by {
        assert(s.subrange(i + 2 + b.len(), i + 2 + b.len() + d.len()) == d);
        assert(!is_digit(s[i + 2 + b.len() + d.len()]));
    }
}

/// Parses the record text of an optional timestamp.
fn parse_ts(s: &Vec<char>, i: usize) -> (r: Option<(Option<Timestamp>, usize)>)
    requires
        i <= s@.len(),
    ensures
        (match r {
            Option::Some(p) => {
                &&& i <= p.1 <= s@.len()
                &&& s@.subrange(i as int, p.1 as int) == enc_ts(view_opt_ts(p.0))
                &&& p.1 == i + enc_ts(view_opt_ts(p.0)).len()
            },
            Option::None => true,
        }),
        forall|o: Option<TimestampV>|
            wf_ts(o) && prefix_at(s@, i as int, enc_ts(o)) ==> (r is Some && view_opt_ts(
                #[trigger] (r->0).0,
            ) == o && (r->0).1 == i + enc_ts(o).len()),
{
    let ghost ii = i as int;
    if i < s.len() && s[i] == '[' {
        proof {
            reveal_strlit("null");
            assert forall|o: Option<TimestampV>|
                wf_ts(o) && prefix_at(s@, ii, enc_ts(o)) implies o is Some by {
                if o is None {
                    lemma_prefix_index(s@, ii, "null"@, 0);
                    assert('n' as u32 == 0x6e && '[' as u32 == 0x5b);
                }
            }
        }
        match parse_i64(s, i + 1) {
            Option::None => {
                proof {
                    assert forall|o: Option<TimestampV>| !(wf_ts(o) && prefix_at(
                        s@,
                        ii,
                        enc_ts(o),
                    )) by {
                        if wf_ts(o) && prefix_at(s@, ii, enc_ts(o)) {
                            let t = o->0;
                            lemma_enc_ts_array(s@, ii, t);
                            let xw: i64 = t.seconds as i64;
                            assert(!maximal_int_at(s@, ii + 1, xw as int));
                        }
                    }
                }
                Option::None
            }
            Option::Some((sec, j1)) => {
                proof {
                    assert forall|o: Option<TimestampV>|
                        wf_ts(o) && prefix_at(s@, ii, enc_ts(o)) implies (o->0.seconds
                        == sec as int && j1 == ii + 1 + dec_int(sec as int).len()) by {
                        let t = o->0;
                        lemma_enc_ts_array(s@, ii, t);
                        lemma_maximal_int_unique(s@, ii + 1, sec as int, t.seconds);
                    }
                }
                match expect_char(s, j1, ',') {
                    Option::None => {
                        proof {
                            assert forall|o: Option<TimestampV>| !(wf_ts(o) && prefix_at(
                                s@,
                                ii,
                                enc_ts(o),
                            )) by {
                                if wf_ts(o) && prefix_at(s@, ii, enc_ts(o)) {
                                    lemma_enc_ts_array(s@, ii, o->0);
                                }
                            }
                        }
                        Option::None
                    }
                    Option::Some(j2) => {
                        match parse_i64(s, j2) {
                            Option::None => {
                                proof {
                                    assert forall|o: Option<TimestampV>| !(wf_ts(o) && prefix_at(
                                        s@,
                                        ii,
                                        enc_ts(o),
                                    )) by {
                                        if wf_ts(o) && prefix_at(s@, ii, enc_ts(o)) {
                                            let t = o->0;
                                            lemma_enc_ts_array(s@, ii, t);
                                            let xw: i64 = t.nanos as i64;
                                            assert(!maximal_int_at(s@, j2 as int, xw as int));
                                        }
                                    }
                                }
                                Option::None
                            }
                            Option::Some((nan, j3)) => {
                                proof {
                                    assert forall|o: Option<TimestampV>|
                                        wf_ts(o) && prefix_at(s@, ii, enc_ts(o)) implies (o
                                        ->0.nanos == nan as int && j3 == j2 + dec_int(
                                        nan as int,
                                    ).len()) by {
                                        let t = o->0;
                                        lemma_enc_ts_array(s@, ii, t);
                                        lemma_maximal_int_unique(s@, j2 as int, nan as int, t.nanos);
                                    }
                                }
                                if nan < -0x8000_0000i64 || nan > 0x7fff_ffffi64 {
                                    return Option::None;
                                }
                                match expect_char(s, j3, ']') {
                                    Option::None => {
                                        proof {
                                            assert forall|o: Option<TimestampV>| !(wf_ts(o)
                                                && prefix_at(s@, ii, enc_ts(o))) by {
                                                if wf_ts(o) && prefix_at(s@, ii, enc_ts(o)) {
                                                    lemma_enc_ts_array(s@, ii, o->0);
                                                }
                                            }
                                        }
                                        Option::None
                                    }
                                    Option::Some(j4) => {
                                        let out = Timestamp { seconds: sec, nanos: nan as i32 };
                                        proof {
                                            let ov = view_opt_ts(Option::Some(out));
                                            assert(s@.subrange(ii, j4 as int) =~= enc_ts(ov)) by {
                                                assert(s@.subrange(ii, ii + 1) =~= seq!['[']);
                                                assert(s@.subrange(j1 as int, j2 as int)
                                                    =~= seq![',']);
                                                assert(s@.subrange(j3 as int, j4 as int)
                                                    =~= seq![']']);
                                                lemma_subrange_join(s@, ii, ii + 1, j1 as int);
                                                lemma_subrange_join(s@, ii, j1 as int, j2 as int);
                                                lemma_subrange_join(s@, ii, j2 as int, j3 as int);
                                                lemma_subrange_join(s@, ii, j3 as int, j4 as int);
                                            }
                                            assert forall|o: Option<TimestampV>|
                                                wf_ts(o) && prefix_at(s@, ii, enc_ts(o)) implies (
                                            view_opt_ts(Option::Some(out)) == o && j4 == ii
                                                + enc_ts(o).len()) by {
                                                let t = o->0;
                                                lemma_enc_ts_array(s@, ii, t);
                                                assert(view_opt_ts(Option::Some(out))->0 =~= t);
                                            }
                                        }
                                        Option::Some((Option::Some(out), j4))
                                    }
                                }
                            }
                        }
                    }
                }
            }
        }
    } else {
        match expect_lit(s, i, "null") {
            Option::Some(j) => {
                proof {
                    assert(s@.subrange(ii, j as int) == "null"@);
                    reveal_strlit("null");
                    assert forall|o: Option<TimestampV>|
                        wf_ts(o) && prefix_at(s@, ii, enc_ts(o)) implies (view_opt_ts(
                        Option::<Timestamp>::None,
                    ) == o && j == ii + enc_ts(o).len()) by {
                        if o is Some {
                            lemma_enc_ts_array(s@, ii, o->0);
                            lemma_prefix_index(s@, ii, "null"@, 0);
                            assert('n' as u32 == 0x6e && '[' as u32 == 0x5b);
                        }
                    }
                }
                Option::Some((Option::None, j))
            }
            Option::None => {
                proof {
                    reveal_strlit("null");
                    assert forall|o: Option<TimestampV>| !(wf_ts(o) && prefix_at(
                        s@,
                        ii,
                        enc_ts(o),
                    )) by {
                        if wf_ts(o) && prefix_at(s@, ii, enc_ts(o)) {
                            if o is Some {
                                lemma_enc_ts_array(s@, ii, o->0);
                            }
                        }
                    }
                }
                Option::None
            }
        }
    }
}


/// Decomposes the object form of an encoded optional time zone.
proof fn lemma_enc_tz_obj(s: Seq<char>, i: int, z: TimezoneV)
    requires
        prefix_at(s, i, enc_tz(Option::Some(z))),
    ensures
        i < s.len(),
        s[i] == '{',
        prefix_at(s, i, "{\"name\":\""@),
        prefix_at(s, i + "{\"name\":\""@.len(), qtail(z.name)),
        prefix_at(s, i + "{\"name\":\""@.len() + qtail(z.name).len(), ",\"offset\":"@),
        maximal_int_at(
            s,
            i + "{\"name\":\""@.len() + qtail(z.name).len() + ",\"offset\":"@.len(),
            z.offset,
        ),
        s[i + "{\"name\":\""@.len() + qtail(z.name).len() + ",\"offset\":"@.len() + dec_int(
            z.offset,
        ).len()] == '}',
        enc_tz(Option::Some(z)).len() == "{\"name\":\""@.len() + qtail(z.name).len()
            + ",\"offset\":"@.len() + dec_int(z.offset).len() + 1,
        i + enc_tz(Option::Some(z)).len() <= s.len(),
{
    let a = "{\"name\":\""@;
    let b = qtail(z.name);
    let c = ",\"offset\":"@;
    let d = dec_int(z.offset);
    let e = seq!['}'];
    assert(enc_tz(Option::Some(z)) == a + (b + (c + (d + e))));
    lemma_prefix_split(s, i, a, b + (c + (d + e)));
    lemma_prefix_split(s, i + a.len(), b, c + (d + e));
    lemma_prefix_split(s, i + a.len() + b.len(), c, d + e);
    lemma_prefix_split(s, i + a.len() + b.len() + c.len(), d, e);
    lemma_prefix_index(s, i + a.len() + b.len() + c.len() + d.len(), e, 0);
    reveal_strlit("{\"name\":\"");
    lemma_prefix_index(s, i, a, 0);
    assert('}' as u32 == 0x7d);
    assert(maximal_int_at(s, i + a.len() + b.len() + c.len(), z.offset)) by {
        assert(s.subrange(
            i + a.len() + b.len() + c.len(),
            i + a.len() + b.len() + c.len() + d.len(),
        ) == d);
        assert(!is_digit(s[i + a.len() + b.len() + c.len() + d.len()]));
    }
}

/// Parses the record text of an optional time zone.
fn parse_tz(s: &Vec<char>, i: usize) -> (r: Option<(Option<Timezone>, usize)>)
    requires
        i <= s@.len(),
    ensures
        (match r {
            Option::Some(p) => {
                &&& i <= p.1 <= s@.len()
                &&& s@.subrange(i as int, p.1 as int) == enc_tz(view_opt_tz(p.0))
                &&& p.1 == i + enc_tz(view_opt_tz(p.0)).len()
            },
            Option::None => true,
        }),
        forall|o: Option<TimezoneV>|
            wf_tz(o) && prefix_at(s@, i as int, enc_tz(o)) ==> (r is Some && view_opt_tz(
                #[trigger] (r->0).0,
            ) == o && (r->0).1 == i + enc_tz(o).len()),
{
    let ghost ii = i as int;
    if i < s.len() && s[i] == '{' {
        proof {
            reveal_strlit("null");
            assert forall|o: Option<TimezoneV>|
                wf_tz(o) && prefix_at(s@, ii, enc_tz(o)) implies o is Some by {
                if o is None {
                    lemma_prefix_index(s@, ii, "null"@, 0);
                    assert('n' as u32 == 0x6e && '{' as u32 == 0x7b);
                }
            }
        }
        match expect_lit(s, i, "{\"name\":\"") {
            Option::None => {
                proof {
                    assert forall|o: Option<TimezoneV>| !(wf_tz(o) && prefix_at(
                        s@,
                        ii,
                        enc_tz(o),
                    )) by {
                        if wf_tz(o) && prefix_at(s@, ii, enc_tz(o)) {
                            lemma_enc_tz_obj(s@, ii, o->0);
                        }
                    }
                }
                Option::None
            }
            Option::Some(j1) => {
                match parse_qtail(s, j1) {
                    Option::None => {
                        proof {
                            assert forall|o: Option<TimezoneV>| !(wf_tz(o) && prefix_at(
                                s@,
                                ii,
                                enc_tz(o),
                            )) by {
                                if wf_tz(o) && prefix_at(s@, ii, enc_tz(o)) {
                                    lemma_enc_tz_obj(s@, ii, o->0);
                                }
                            }
                        }
                        Option::None
                    }
                    Option::Some((nm, j2)) => {
                        proof {
                            assert forall|o: Option<TimezoneV>|
                                wf_tz(o) && prefix_at(s@, ii, enc_tz(o)) implies (o->0.name == nm@
                                && j2 == j1 + qtail(nm@).len()) by {
                                lemma_enc_tz_obj(s@, ii, o->0);
                            }
                        }
                        match expect_lit(s, j2, ",\"offset\":") {
                            Option::None => {
                                proof {
                                    assert forall|o: Option<TimezoneV>| !(wf_tz(o) && prefix_at(
                                        s@,
                                        ii,
                                        enc_tz(o),
                                    )) by {
                                        if wf_tz(o) && prefix_at(s@, ii, enc_tz(o)) {
                                            lemma_enc_tz_obj(s@, ii, o->0);
                                        }
                                    }
                                }
                                Option::None
                            }
                            Option::Some(j3) => {
                                match parse_i64(s, j3) {
                                    Option::None => {
                                        proof {
                                            assert forall|o: Option<TimezoneV>| !(wf_tz(o)
                                                && prefix_at(s@, ii, enc_tz(o))) by {
                                                if wf_tz(o) && prefix_at(s@, ii, enc_tz(o)) {
                                                    let z = o->0;
                                                    lemma_enc_tz_obj(s@, ii, z);
                                                    let xw: i64 = z.offset as i64;
                                                    assert(!maximal_int_at(
                                                        s@,
                                                        j3 as int,
                                                        xw as int,
                                                    ));
                                                }
                                            }
                                        }
                                        Option::None
                                    }
                                    Option::Some((off, j4)) => {
                                        proof {
                                            assert forall|o: Option<TimezoneV>|
                                                wf_tz(o) && prefix_at(s@, ii, enc_tz(o)) implies (o
                                                ->0.offset == off as int && j4 == j3 + dec_int(
                                                off as int,
                                            ).len()) by {
                                                let z = o->0;
                                                lemma_enc_tz_obj(s@, ii, z);
                                                lemma_maximal_int_unique(
                                                    s@,
                                                    j3 as int,
                                                    off as int,
                                                    z.offset,
                                                );
                                            }
                                        }
                                        if off < -0x8000_0000i64 || off > 0x7fff_ffffi64 {
                                            return Option::None;
                                        }
                                        match expect_char(s, j4, '}') {
                                            Option::None => {
                                                proof {
                                                    assert forall|o: Option<TimezoneV>| !(wf_tz(o)
                                                        && prefix_at(s@, ii, enc_tz(o))) by {
                                                        if wf_tz(o) && prefix_at(
                                                            s@,
                                                            ii,
                                                            enc_tz(o),
                                                        ) {
                                                            lemma_enc_tz_obj(s@, ii, o->0);
                                                        }
                                                    }
                                                }
                                                Option::None
                                            }
                                            Option::Some(j5) => {
                                                let out = Timezone {
                                                    name: nm,
                                                    offset: off as i32,
                                                };
                                                proof {
                                                    let ov = view_opt_tz(Option::Some(out));
                                                    assert(s@.subrange(ii, j5 as int) =~= enc_tz(
                                                        ov,
                                                    )) by {
                                                        assert(s@.subrange(ii, j1 as int)
                                                            =~= "{\"name\":\""@);
                                                        assert(s@.subrange(j4 as int, j5 as int)
                                                            =~= seq!['}']);
                                                        lemma_subrange_join(
                                                            s@,
                                                            ii,
                                                            j1 as int,
                                                            j2 as int,
                                                        );
                                                        lemma_subrange_join(
                                                            s@,
                                                            ii,
                                                            j2 as int,
                                                            j3 as int,
                                                        );
                                                        lemma_subrange_join(
                                                            s@,
                                                            ii,
                                                            j3 as int,
                                                            j4 as int,
                                                        );
                                                        lemma_subrange_join(
                                                            s@,
                                                            ii,
                                                            j4 as int,
                                                            j5 as int,
                                                        );
                                                    }
                                                    assert forall|o: Option<TimezoneV>|
                                                        wf_tz(o) && prefix_at(
                                                        s@,
                                                        ii,
                                                        enc_tz(o),
                                                    ) implies (view_opt_tz(Option::Some(out)) == o
                                                        && j5 == ii + enc_tz(o).len()) by {
                                                        let z = o->0;
                                                        lemma_enc_tz_obj(s@, ii, z);
                                                        assert(view_opt_tz(Option::Some(out))->0
                                                            =~= z);
                                                    }
                                                }
                                                Option::Some((Option::Some(out), j5))
                                            }
                                        }
                                    }
                                }
                            }
                        }
                    }
                }
            }
        }
    } else {
        match expect_lit(s, i, "null") {
            Option::Some(j) => {
                proof {
                    assert(s@.subrange(ii, j as int) == "null"@);
                    reveal_strlit("null");
                    assert forall|o: Option<TimezoneV>|
                        wf_tz(o) && prefix_at(s@, ii, enc_tz(o)) implies (view_opt_tz(
                        Option::<Timezone>::None,
                    ) == o && j == ii + enc_tz(o).len()) by {
                        if o is Some {
                            lemma_enc_tz_obj(s@, ii, o->0);
                            lemma_prefix_index(s@, ii, "null"@, 0);
                            assert('n' as u32 == 0x6e && '{' as u32 == 0x7b);
                        }
                    }
                }
                Option::Some((Option::None, j))
            }
            Option::None => {
                proof {
                    reveal_strlit("null");
                    assert forall|o: Option<TimezoneV>| !(wf_tz(o) && prefix_at(
                        s@,
                        ii,
                        enc_tz(o),
                    )) by {
                        if wf_tz(o) && prefix_at(s@, ii, enc_tz(o)) {
                            if o is Some {
                                lemma_enc_tz_obj(s@, ii, o->0);
                            }
                        }
                    }
                }
                Option::None
            }
        }
    }
}

/// Parses the record text of a boolean.
fn parse_bool(s: &Vec<char>, i: usize) -> (r: Option<(bool, usize)>)
    requires
        i <= s@.len(),
    ensures
        (match r {
            Option::Some(p) => {
                &&& i <= p.1 <= s@.len()
                &&& s@.subrange(i as int, p.1 as int) == enc_bool(p.0)
                &&& p.1 == i + enc_bool(p.0).len()
            },
            Option::None => true,
        }),
        forall|b: bool|
            prefix_at(s@, i as int, enc_bool(b)) ==> (r is Some && #[trigger] (r->0).0 == b && (r
                ->0).1 == i + enc_bool(b).len()),
{
    let ghost ii = i as int;
    match expect_lit(s, i, "true") {
        Option::Some(j) => {
            proof {
                assert(s@.subrange(ii, j as int) == "true"@);
                reveal_strlit("true");
                reveal_strlit("false");
                assert forall|b: bool| prefix_at(s@, ii, enc_bool(b)) implies b == true by {
                    if !b {
                        lemma_prefix_index(s@, ii, "false"@, 0);
                        lemma_prefix_index(s@, ii, "true"@, 0);
                        assert('t' as u32 == 0x74 && 'f' as u32 == 0x66);
                    }
                }
            }
            Option::Some((true, j))
        }
        Option::None => {
            match expect_lit(s, i, "false") {
                Option::Some(j) => {
                    proof {
                        assert(s@.subrange(ii, j as int) == "false"@);
                        assert forall|b: bool| prefix_at(s@, ii, enc_bool(b)) implies b == false by {
                        }
                    }
                    Option::Some((false, j))
                }
                Option::None => {
                    Option::None
                }
            }
        }
    }
}


/// Decomposes the `bytes` form of an encoded optional payload.
proof fn lemma_enc_add_bytes(s: Seq<char>, i: int, b: Seq<u8>)
    requires
        prefix_at(s, i, enc_add(Option::Some(AdditionalV::Bytes(b)))),
    ensures
        i < s.len(),
        s[i] == '{',
        s[i + 2] == 'b',
        prefix_at(s, i, "{\"bytes\":\""@),
        prefix_at(s, i + "{\"bytes\":\""@.len(), qtail(b64_of(b))),
        s[i + "{\"bytes\":\""@.len() + qtail(b64_of(b)).len()] == '}',
        enc_add(Option::Some(AdditionalV::Bytes(b))).len() == "{\"bytes\":\""@.len() + qtail(
            b64_of(b),
        ).len() + 1,
        i + enc_add(Option::Some(AdditionalV::Bytes(b))).len() <= s.len(),
{
    let a = "{\"bytes\":\""@;
    let q = qtail(b64_of(b));
    let e = seq!['}'];
    assert(enc_add(Option::Some(AdditionalV::Bytes(b))) == a + (q + e));
    lemma_prefix_split(s, i, a, q + e);
    lemma_prefix_split(s, i + a.len(), q, e);
    lemma_prefix_index(s, i + a.len() + q.len(), e, 0);
    reveal_strlit("{\"bytes\":\"");
    lemma_prefix_index(s, i, a, 0);
    lemma_prefix_index(s, i, a, 2);
}

/// Decomposes the `str` form of an encoded optional payload.
proof fn lemma_enc_add_str(s: Seq<char>, i: int, t: Seq<char>)
    requires
        prefix_at(s, i, enc_add(Option::Some(AdditionalV::Str(t)))),
    ensures
        i < s.len(),
        s[i] == '{',
        s[i + 2] == 's',
        prefix_at(s, i, "{\"str\":\""@),
        prefix_at(s, i + "{\"str\":\""@.len(), qtail(t)),
        s[i + "{\"str\":\""@.len() + qtail(t).len()] == '}',
        enc_add(Option::Some(AdditionalV::Str(t))).len() == "{\"str\":\""@.len() + qtail(t).len()
            + 1,
        i + enc_add(Option::Some(AdditionalV::Str(t))).len() <= s.len(),
{
    let a = "{\"str\":\""@;
    let q = qtail(t);
    let e = seq!['}'];
    assert(enc_add(Option::Some(AdditionalV::Str(t))) == a + (q + e));
    lemma_prefix_split(s, i, a, q + e);
    lemma_prefix_split(s, i + a.len(), q, e);
    lemma_prefix_index(s, i + a.len() + q.len(), e, 0);
    reveal_strlit("{\"str\":\"");
    lemma_prefix_index(s, i, a, 0);
    lemma_prefix_index(s, i, a, 2);
}

/// Decomposes the `yaml` form of an encoded optional payload.
proof fn lemma_enc_add_yaml(s: Seq<char>, i: int, t: Seq<char>)
    requires
        prefix_at(s, i, enc_add(Option::Some(AdditionalV::Yaml(t)))),
    ensures
        i < s.len(),
        s[i] == '{',
        s[i + 2] == 'y',
        prefix_at(s, i, "{\"yaml\":\""@),
        prefix_at(s, i + "{\"yaml\":\""@.len(), qtail(t)),
        s[i + "{\"yaml\":\""@.len() + qtail(t).len()] == '}',
        enc_add(Option::Some(AdditionalV::Yaml(t))).len() == "{\"yaml\":\""@.len() + qtail(t).len()
            + 1,
        i + enc_add(Option::Some(AdditionalV::Yaml(t))).len() <= s.len(),
{
    let a = "{\"yaml\":\""@;
    let q = qtail(t);
    let e = seq!['}'];
    assert(enc_add(Option::Some(AdditionalV::Yaml(t))) == a + (q + e));
    lemma_prefix_split(s, i, a, q + e);
    lemma_prefix_split(s, i + a.len(), q, e);
    lemma_prefix_index(s, i + a.len() + q.len(), e, 0);
    reveal_strlit("{\"yaml\":\"");
    lemma_prefix_index(s, i, a, 0);
    lemma_prefix_index(s, i, a, 2);
}

/// The hypothesis of the payload parser's refusal clauses, shared by its
/// failing paths.
proof fn lemma_add_variants(s: Seq<char>, i: int, o: Option<AdditionalV>)
    requires
        prefix_at(s, i, enc_add(o)),
    ensures
        i < s.len(),
        o is None ==> s[i] == 'n',
        o matches Option::Some(AdditionalV::Bytes(_)) ==> s[i] == '{' && s[i + 2] == 'b',
        o matches Option::Some(AdditionalV::Str(_)) ==> s[i] == '{' && s[i + 2] == 's',
        o matches Option::Some(AdditionalV::Yaml(_)) ==> s[i] == '{' && s[i + 2] == 'y',
    decreases 0int,
{
    match o {
        Option::None => {
            reveal_strlit("null");
            lemma_prefix_index(s, i, "null"@, 0);
        }
        Option::Some(AdditionalV::Bytes(b)) => {
            lemma_enc_add_bytes(s, i, b);
        }
        Option::Some(AdditionalV::Str(t)) => {
            lemma_enc_add_str(s, i, t);
        }
        Option::Some(AdditionalV::Yaml(t)) => {
            lemma_enc_add_yaml(s, i, t);
        }
    }
}

/// Parses the record text of an optional payload: `null`, or an object
/// with exactly one of the keys `bytes`, `str` or `yaml`. An object with
/// several of these keys is refused as ill-formed rather than resolved to
/// one of them.
fn parse_add(s: &Vec<char>, i: usize) -> (r: Option<(Option<crate::event::Additional>, usize)>)
    requires
        i <= s@.len(),
    ensures
        (match r {
            Option::Some(p) => {
                &&& i <= p.1 <= s@.len()
                &&& s@.subrange(i as int, p.1 as int) == enc_add(view_opt_add(p.0))
                &&& p.1 == i + enc_add(view_opt_add(p.0)).len()
            },
            Option::None => true,
        }),
        forall|o: Option<AdditionalV>|
            prefix_at(s@, i as int, enc_add(o)) ==> (r is Some && view_opt_add(#[trigger] (r->0).0)
                == o && (r->0).1 == i + enc_add(o).len()),
{
    let ghost ii = i as int;
    if i < s.len() && s[i] == '{' {
        proof {
            assert forall|o: Option<AdditionalV>|
                prefix_at(s@, ii, enc_add(o)) implies o is Some by {
                lemma_add_variants(s@, ii, o);
                assert('n' as u32 == 0x6e && '{' as u32 == 0x7b);
            }
        }
        match expect_lit(s, i, "{\"bytes\":\"") {
            Option::Some(j1) => {
                proof {
                    reveal_strlit("{\"bytes\":\"");
                    lemma_prefix_index(s@, ii, "{\"bytes\":\""@, 2);
                    assert forall|o: Option<AdditionalV>|
                        prefix_at(s@, ii, enc_add(o)) implies (o matches Option::Some(
                        AdditionalV::Bytes(_),
                    )) by {
                        lemma_add_variants(s@, ii, o);
                        assert('b' as u32 == 0x62 && 's' as u32 == 0x73 && 'y' as u32 == 0x79);
                    }
                }
                match parse_b64tail(s, j1) {
                    Option::None => {
                        proof {
                            assert forall|o: Option<AdditionalV>| !prefix_at(
                                s@,
                                ii,
                                enc_add(o),
                            ) by {
                                if prefix_at(s@, ii, enc_add(o)) {
                                    match o {
                                        Option::Some(AdditionalV::Bytes(b)) => {
                                            lemma_enc_add_bytes(s@, ii, b);
                                        }
                                        _ => {
                                        }
                                    }
                                }
                            }
                        }
                        Option::None
                    }
                    Option::Some((bytes, j2)) => {
                        match expect_char(s, j2, '}') {
                            Option::None => {
                                proof {
                                    assert forall|o: Option<AdditionalV>| !prefix_at(
                                        s@,
                                        ii,
                                        enc_add(o),
                                    ) by {
                                        if prefix_at(s@, ii, enc_add(o)) {
                                            match o {
                                                Option::Some(AdditionalV::Bytes(b)) => {
                                                    lemma_enc_add_bytes(s@, ii, b);
                                                }
                                                _ => {
                                                }
                                            }
                                        }
                                    }
                                }
                                Option::None
                            }
                            Option::Some(j3) => {
                                let out = crate::event::Additional::Bytes(bytes);
                                proof {
                                    let ov = view_opt_add(Option::Some(out));
                                    assert(s@.subrange(ii, j3 as int) =~= enc_add(ov)) by {
                                        assert(s@.subrange(ii, j1 as int) =~= "{\"bytes\":\""@);
                                        assert(s@.subrange(j2 as int, j3 as int) =~= seq!['}']);
                                        lemma_subrange_join(s@, ii, j1 as int, j2 as int);
                                        lemma_subrange_join(s@, ii, j2 as int, j3 as int);
                                    }
                                    assert forall|o: Option<AdditionalV>|
                                        prefix_at(s@, ii, enc_add(o)) implies (view_opt_add(
                                        Option::Some(out),
                                    ) == o && j3 == ii + enc_add(o).len()) by {
                                        match o {
                                            Option::Some(AdditionalV::Bytes(b)) => {
                                                lemma_enc_add_bytes(s@, ii, b);
                                            }
                                            _ => {
                                            }
                                        }
                                    }
                                }
                                Option::Some((Option::Some(out), j3))
                            }
                        }
                    }
                }
            }
            Option::None => {
                match expect_lit(s, i, "{\"str\":\"") {
                    Option::Some(j1) => {
                        proof {
                            reveal_strlit("{\"str\":\"");
                            lemma_prefix_index(s@, ii, "{\"str\":\""@, 2);
                            assert forall|o: Option<AdditionalV>|
                                prefix_at(s@, ii, enc_add(o)) implies (o matches Option::Some(
                                AdditionalV::Str(_),
                            )) by {
                                lemma_add_variants(s@, ii, o);
                                match o {
                                    Option::Some(AdditionalV::Bytes(b)) => {
                                        lemma_enc_add_bytes(s@, ii, b);
                                    }
                                    _ => {
                                    }
                                }
                                assert('b' as u32 == 0x62 && 's' as u32 == 0x73 && 'y' as u32
                                    == 0x79);
                            }
                        }
                        match parse_qtail(s, j1) {
                            Option::None => {
                                proof {
                                    assert forall|o: Option<AdditionalV>| !prefix_at(
                                        s@,
                                        ii,
                                        enc_add(o),
                                    ) by {
                                        if prefix_at(s@, ii, enc_add(o)) {
                                            match o {
                                                Option::Some(AdditionalV::Str(t)) => {
                                                    lemma_enc_add_str(s@, ii, t);
                                                }
                                                _ => {
                                                }
                                            }
                                        }
                                    }
                                }
                                Option::None
                            }
                            Option::Some((txt, j2)) => {
                                match expect_char(s, j2, '}') {
                                    Option::None => {
                                        proof {
                                            assert forall|o: Option<AdditionalV>| !prefix_at(
                                                s@,
                                                ii,
                                                enc_add(o),
                                            ) by {
                                                if prefix_at(s@, ii, enc_add(o)) {
                                                    match o {
                                                        Option::Some(AdditionalV::Str(t)) => {
                                                            lemma_enc_add_str(s@, ii, t);
                                                        }
                                                        _ => {
                                                        }
                                                    }
                                                }
                                            }
                                        }
                                        Option::None
                                    }
                                    Option::Some(j3) => {
                                        let out = crate::event::Additional::Str(txt);
                                        proof {
                                            let ov = view_opt_add(Option::Some(out));
                                            assert(s@.subrange(ii, j3 as int) =~= enc_add(ov)) by {
                                                assert(s@.subrange(ii, j1 as int)
                                                    =~= "{\"str\":\""@);
                                                assert(s@.subrange(j2 as int, j3 as int)
                                                    =~= seq!['}']);
                                                lemma_subrange_join(s@, ii, j1 as int, j2 as int);
                                                lemma_subrange_join(s@, ii, j2 as int, j3 as int);
                                            }
                                            assert forall|o: Option<AdditionalV>|
                                                prefix_at(s@, ii, enc_add(o)) implies (
                                            view_opt_add(Option::Some(out)) == o && j3 == ii
                                                + enc_add(o).len()) by {
                                                match o {
                                                    Option::Some(AdditionalV::Str(t)) => {
                                                        lemma_enc_add_str(s@, ii, t);
                                                    }
                                                    _ => {
                                                    }
                                                }
                                            }
                                        }
                                        Option::Some((Option::Some(out), j3))
                                    }
                                }
                            }
                        }
                    }
                    Option::None => {
                        match expect_lit(s, i, "{\"yaml\":\"") {
                            Option::Some(j1) => {
                                proof {
                                    reveal_strlit("{\"yaml\":\"");
                                    lemma_prefix_index(s@, ii, "{\"yaml\":\""@, 2);
                                    assert forall|o: Option<AdditionalV>|
                                        prefix_at(s@, ii, enc_add(o)) implies (o
                                        matches Option::Some(AdditionalV::Yaml(_))) by {
                                        lemma_add_variants(s@, ii, o);
                                        assert('b' as u32 == 0x62 && 's' as u32 == 0x73 && 'y'
                                            as u32 == 0x79);
                                    }
                                }
                                match parse_qtail(s, j1) {
                                    Option::None => {
                                        proof {
                                            assert forall|o: Option<AdditionalV>| !prefix_at(
                                                s@,
                                                ii,
                                                enc_add(o),
                                            ) by {
                                                if prefix_at(s@, ii, enc_add(o)) {
                                                    match o {
                                                        Option::Some(AdditionalV::Yaml(t)) => {
                                                            lemma_enc_add_yaml(s@, ii, t);
                                                        }
                                                        _ => {
                                                        }
                                                    }
                                                }
                                            }
                                        }
                                        Option::None
                                    }
                                    Option::Some((txt, j2)) => {
                                        match expect_char(s, j2, '}') {
                                            Option::None => {
                                                proof {
                                                    assert forall|o: Option<AdditionalV>|
                                                        !prefix_at(s@, ii, enc_add(o)) by {
                                                        if prefix_at(s@, ii, enc_add(o)) {
                                                            match o {
                                                                Option::Some(
                                                                    AdditionalV::Yaml(t),
                                                                ) => {
                                                                    lemma_enc_add_yaml(s@, ii, t);
                                                                }
                                                                _ => {
                                                                }
                                                            }
                                                        }
                                                    }
                                                }
                                                Option::None
                                            }
                                            Option::Some(j3) => {
                                                let out = crate::event::Additional::Yaml(txt);
                                                proof {
                                                    let ov = view_opt_add(Option::Some(out));
                                                    assert(s@.subrange(ii, j3 as int) =~= enc_add(
                                                        ov,
                                                    )) by {
                                                        assert(s@.subrange(ii, j1 as int)
                                                            =~= "{\"yaml\":\""@);
                                                        assert(s@.subrange(j2 as int, j3 as int)
                                                            =~= seq!['}']);
                                                        lemma_subrange_join(
                                                            s@,
                                                            ii,
                                                            j1 as int,
                                                            j2 as int,
                                                        );
                                                        lemma_subrange_join(
                                                            s@,
                                                            ii,
                                                            j2 as int,
                                                            j3 as int,
                                                        );
                                                    }
                                                    assert forall|o: Option<AdditionalV>|
                                                        prefix_at(s@, ii, enc_add(o)) implies (
                                                    view_opt_add(Option::Some(out)) == o && j3
                                                        == ii + enc_add(o).len()) by {
                                                        match o {
                                                            Option::Some(AdditionalV::Yaml(t)) => {
                                                                lemma_enc_add_yaml(s@, ii, t);
                                                            }
                                                            _ => {
                                                            }
                                                        }
                                                    }
                                                }
                                                Option::Some((Option::Some(out), j3))
                                            }
                                        }
                                    }
                                }
                            }
                            Option::None => {
                                proof {
                                    assert forall|o: Option<AdditionalV>| !prefix_at(
                                        s@,
                                        ii,
                                        enc_add(o),
                                    ) by {
                                        if prefix_at(s@, ii, enc_add(o)) {
                                            lemma_add_variants(s@, ii, o);
                                            match o {
                                                Option::Some(AdditionalV::Bytes(b)) => {
                                                    lemma_enc_add_bytes(s@, ii, b);
                                                }
                                                Option::Some(AdditionalV::Str(t)) => {
                                                    lemma_enc_add_str(s@, ii, t);
                                                }
                                                Option::Some(AdditionalV::Yaml(t)) => {
                                                    lemma_enc_add_yaml(s@, ii, t);
                                                }
                                                Option::None => {
                                                }
                                            }
                                        }
                                    }
                                }
                                Option::None
                            }
                        }
                    }
                }
            }
        }
    } else {
        match expect_lit(s, i, "null") {
            Option::Some(j) => {
                proof {
                    assert(s@.subrange(ii, j as int) == "null"@);
                    reveal_strlit("null");
                    assert forall|o: Option<AdditionalV>|
                        prefix_at(s@, ii, enc_add(o)) implies (view_opt_add(
                        Option::<crate::event::Additional>::None,
                    ) == o && j == ii + enc_add(o).len()) by {
                        lemma_add_variants(s@, ii, o);
                        lemma_prefix_index(s@, ii, "null"@, 0);
                        assert('n' as u32 == 0x6e && '{' as u32 == 0x7b);
                    }
                }
                Option::Some((Option::None, j))
            }
            Option::None => {
                proof {
                    reveal_strlit("null");
                    assert forall|o: Option<AdditionalV>| !prefix_at(s@, ii, enc_add(o)) by {
                        if prefix_at(s@, ii, enc_add(o)) {
                            lemma_add_variants(s@, ii, o);
                        }
                    }
                }
                Option::None
            }
        }
    }
}


/// Whether `s` is the record text of the event model `m`.
pub open spec fn is_record_of(s: Seq<char>, m: EventV) -> bool {
    wf_event(m) && s == enc_event(m)
}

/// Decomposes a full record into its pieces, each a prefix at its position.
proof fn lemma_event_pieces(s: Seq<char>, m: EventV)
    requires
        prefix_at(s, 0, enc_event(m)),
    ensures
        prefix_at(s, 0, "{\"uuid\":\""@),
        prefix_at(s, "{\"uuid\":\""@.len() as int, qtail(b64_of(m.uuid))),
        enc_p1(m).len() == "{\"uuid\":\""@.len() + qtail(b64_of(m.uuid)).len(),
        prefix_at(s, enc_p1(m).len() as int, ",\"account\":\""@),
        prefix_at(s, (enc_p1(m).len() + ",\"account\":\""@.len()) as int, qtail(b64_of(m.account))),
        enc_p2(m).len() == enc_p1(m).len() + ",\"account\":\""@.len() + qtail(
            b64_of(m.account),
        ).len(),
        prefix_at(s, enc_p2(m).len() as int, ",\"application\":\""@),
        prefix_at(s, (enc_p2(m).len() + ",\"application\":\""@.len()) as int, qtail(m.application)),
        enc_p3(m).len() == enc_p2(m).len() + ",\"application\":\""@.len() + qtail(
            m.application,
        ).len(),
        prefix_at(s, enc_p3(m).len() as int, ",\"type\":\""@),
        prefix_at(s, (enc_p3(m).len() + ",\"type\":\""@.len()) as int, qtail(m.type_)),
        enc_p4(m).len() == enc_p3(m).len() + ",\"type\":\""@.len() + qtail(m.type_).len(),
        prefix_at(s, enc_p4(m).len() as int, ",\"name\":\""@),
        prefix_at(s, (enc_p4(m).len() + ",\"name\":\""@.len()) as int, qtail(m.name)),
        enc_p5(m).len() == enc_p4(m).len() + ",\"name\":\""@.len() + qtail(m.name).len(),
        prefix_at(s, enc_p5(m).len() as int, ",\"description\":\""@),
        prefix_at(s, (enc_p5(m).len() + ",\"description\":\""@.len()) as int, qtail(m.description)),
        enc_p6(m).len() == enc_p5(m).len() + ",\"description\":\""@.len() + qtail(
            m.description,
        ).len(),
        prefix_at(s, enc_p6(m).len() as int, ",\"timestamp\":"@),
        prefix_at(s, (enc_p6(m).len() + ",\"timestamp\":"@.len()) as int, enc_ts(m.timestamp)),
        enc_p7(m).len() == enc_p6(m).len() + ",\"timestamp\":"@.len() + enc_ts(m.timestamp).len(),
        prefix_at(s, enc_p7(m).len() as int, ",\"timezone\":"@),
        prefix_at(s, (enc_p7(m).len() + ",\"timezone\":"@.len()) as int, enc_tz(m.timezone)),
        enc_p8(m).len() == enc_p7(m).len() + ",\"timezone\":"@.len() + enc_tz(m.timezone).len(),
        prefix_at(s, enc_p8(m).len() as int, ",\"real_time\":"@),
        prefix_at(s, (enc_p8(m).len() + ",\"real_time\":"@.len()) as int, enc_bool(m.real_time)),
        enc_p9(m).len() == enc_p8(m).len() + ",\"real_time\":"@.len() + enc_bool(
            m.real_time,
        ).len(),
        prefix_at(s, enc_p9(m).len() as int, ",\"synced\":"@),
        prefix_at(s, (enc_p9(m).len() + ",\"synced\":"@.len()) as int, enc_ts(m.synced)),
        enc_p10(m).len() == enc_p9(m).len() + ",\"synced\":"@.len() + enc_ts(m.synced).len(),
        prefix_at(s, enc_p10(m).len() as int, ",\"additional\":"@),
        prefix_at(s, (enc_p10(m).len() + ",\"additional\":"@.len()) as int, enc_add(m.additional)),
        enc_p11(m).len() == enc_p10(m).len() + ",\"additional\":"@.len() + enc_add(
            m.additional,
        ).len(),
        prefix_at(s, enc_p11(m).len() as int, seq!['}']),
        enc_event(m).len() == enc_p11(m).len() + 1,
{
    lemma_prefix_split(s, 0, enc_p11(m), seq!['}']);
    lemma_prefix_split(s, 0, enc_p10(m) + ",\"additional\":"@, enc_add(m.additional));
    lemma_prefix_split(s, 0, enc_p10(m), ",\"additional\":"@);
    lemma_prefix_split(s, 0, enc_p9(m) + ",\"synced\":"@, enc_ts(m.synced));
    lemma_prefix_split(s, 0, enc_p9(m), ",\"synced\":"@);
    lemma_prefix_split(s, 0, enc_p8(m) + ",\"real_time\":"@, enc_bool(m.real_time));
    lemma_prefix_split(s, 0, enc_p8(m), ",\"real_time\":"@);
    lemma_prefix_split(s, 0, enc_p7(m) + ",\"timezone\":"@, enc_tz(m.timezone));
    lemma_prefix_split(s, 0, enc_p7(m), ",\"timezone\":"@);
    lemma_prefix_split(s, 0, enc_p6(m) + ",\"timestamp\":"@, enc_ts(m.timestamp));
    lemma_prefix_split(s, 0, enc_p6(m), ",\"timestamp\":"@);
    lemma_prefix_split(s, 0, enc_p5(m) + ",\"description\":\""@, qtail(m.description));
    lemma_prefix_split(s, 0, enc_p5(m), ",\"description\":\""@);
    lemma_prefix_split(s, 0, enc_p4(m) + ",\"name\":\""@, qtail(m.name));
    lemma_prefix_split(s, 0, enc_p4(m), ",\"name\":\""@);
    lemma_prefix_split(s, 0, enc_p3(m) + ",\"type\":\""@, qtail(m.type_));
    lemma_prefix_split(s, 0, enc_p3(m), ",\"type\":\""@);
    lemma_prefix_split(s, 0, enc_p2(m) + ",\"application\":\""@, qtail(m.application));
    lemma_prefix_split(s, 0, enc_p2(m), ",\"application\":\""@);
    lemma_prefix_split(s, 0, enc_p1(m) + ",\"account\":\""@, qtail(b64_of(m.account)));
    lemma_prefix_split(s, 0, enc_p1(m), ",\"account\":\""@);
    lemma_prefix_split(s, 0, "{\"uuid\":\""@, qtail(b64_of(m.uuid)));
}

/// An event model carrying the six leading fields and nothing else; the
/// leading-piece functions read only those fields.
pub open spec fn head_ev(
    u: Seq<u8>,
    a: Seq<u8>,
    ap: Seq<char>,
    ty: Seq<char>,
    nm: Seq<char>,
    de: Seq<char>,
) -> EventV {
    EventV {
        uuid: u,
        account: a,
        application: ap,
        type_: ty,
        name: nm,
        description: de,
        timestamp: Option::None,
        timezone: Option::None,
        real_time: false,
        synced: Option::None,
        additional: Option::None,
    }
}

/// Parses the six leading string-valued fields of a record.
#[verifier::rlimit(100)]
fn parse_head(s: &Vec<char>) -> (r: Option<
    ((Vec<u8>, Vec<u8>, String, String, String, String), usize),
>)
    ensures
        (match r {
            Option::Some(p) => {
                &&& p.1 <= s@.len()
                &&& s@.subrange(0, p.1 as int) == enc_p6(
                    head_ev(p.0.0@, p.0.1@, p.0.2@, p.0.3@, p.0.4@, p.0.5@),
                )
            },
            Option::None => true,
        }),
        forall|m: EventV|
            is_record_of(s@, m) ==> (r is Some && (#[trigger] (r->0)).0.0@ == m.uuid && (r
                ->0).0.1@ == m.account && (r->0).0.2@ == m.application && (r->0).0.3@ == m.type_
                && (r->0).0.4@ == m.name && (r->0).0.5@ == m.description && (r->0).1 == enc_p6(
                m,
            ).len()),
{

    proof {
        assert forall|m: EventV| is_record_of(s@, m) implies prefix_at(s@, 0, enc_event(m)) by {
            assert(s@.subrange(0, enc_event(m).len() as int) =~= enc_event(m));
        }
    }
    let a1 = match expect_lit(s, 0, "{\"uuid\":\"") {
        Option::Some(j) => j,
        Option::None => {
            proof {
                assert forall|m: EventV| !is_record_of(s@, m) by {
                    if is_record_of(s@, m) {
                        lemma_event_pieces(s@, m);
                    }
                }
            }
            return Option::None;
        }
    };
    let (uuid, b1) = match parse_b64tail(s, a1) {
        Option::Some(p) => p,
        Option::None => {
            proof {
                assert forall|m: EventV| !is_record_of(s@, m) by {
                    if is_record_of(s@, m) {
                        lemma_event_pieces(s@, m);
                    }
                }
            }
            return Option::None;
        }
    };
    proof {
        assert forall|m: EventV| is_record_of(s@, m) implies uuid@ == m.uuid && b1
            == enc_p1(m).len() by {
            lemma_event_pieces(s@, m);
        }
    }
    let a2 = match expect_lit(s, b1, ",\"account\":\"") {
        Option::Some(j) => j,
        Option::None => {
            proof {
                assert forall|m: EventV| !is_record_of(s@, m) by {
                    if is_record_of(s@, m) {
                        lemma_event_pieces(s@, m);
                    }
                }
            }
            return Option::None;
        }
    };
    let (account, b2) = match parse_b64tail(s, a2) {
        Option::Some(p) => p,
        Option::None => {
            proof {
                assert forall|m: EventV| !is_record_of(s@, m) by {
                    if is_record_of(s@, m) {
                        lemma_event_pieces(s@, m);
                    }
                }
            }
            return Option::None;
        }
    };
    proof {
        assert forall|m: EventV| is_record_of(s@, m) implies account@ == m.account && b2
            == enc_p2(m).len() by {
            lemma_event_pieces(s@, m);
        }
    }
    let a3 = match expect_lit(s, b2, ",\"application\":\"") {
        Option::Some(j) => j,
        Option::None => {
            proof {
                assert forall|m: EventV| !is_record_of(s@, m) by {
                    if is_record_of(s@, m) {
                        lemma_event_pieces(s@, m);
                    }
                }
            }
            return Option::None;
        }
    };
    let (application, b3) = match parse_qtail(s, a3) {
        Option::Some(p) => p,
        Option::None => {
            proof {
                assert forall|m: EventV| !is_record_of(s@, m) by {
                    if is_record_of(s@, m) {
                        lemma_event_pieces(s@, m);
                    }
                }
            }
            return Option::None;
        }
    };
    proof {
        assert forall|m: EventV| is_record_of(s@, m) implies application@ == m.application && b3
            == enc_p3(m).len() by {
            lemma_event_pieces(s@, m);
        }
    }
    let a4 = match expect_lit(s, b3, ",\"type\":\"") {
        Option::Some(j) => j,
        Option::None => {
            proof {
                assert forall|m: EventV| !is_record_of(s@, m) by {
                    if is_record_of(s@, m) {
                        lemma_event_pieces(s@, m);
                    }
                }
            }
            return Option::None;
        }
    };
    let (type_, b4) = match parse_qtail(s, a4) {
        Option::Some(p) => p,
        Option::None => {
            proof {
                assert forall|m: EventV| !is_record_of(s@, m) by {
                    if is_record_of(s@, m) {
                        lemma_event_pieces(s@, m);
                    }
                }
            }
            return Option::None;
        }
    };
    proof {
        assert forall|m: EventV| is_record_of(s@, m) implies type_@ == m.type_ && b4
            == enc_p4(m).len() by {
            lemma_event_pieces(s@, m);
        }
    }
    let a5 = match expect_lit(s, b4, ",\"name\":\"") {
        Option::Some(j) => j,
        Option::None => {
            proof {
                assert forall|m: EventV| !is_record_of(s@, m) by {
                    if is_record_of(s@, m) {
                        lemma_event_pieces(s@, m);
                    }
                }
            }
            return Option::None;
        }
    };
    let (name, b5) = match parse_qtail(s, a5) {
        Option::Some(p) => p,
        Option::None => {
            proof {
                assert forall|m: EventV| !is_record_of(s@, m) by {
                    if is_record_of(s@, m) {
                        lemma_event_pieces(s@, m);
                    }
                }
            }
            return Option::None;
        }
    };
    proof {
        assert forall|m: EventV| is_record_of(s@, m) implies name@ == m.name && b5
            == enc_p5(m).len() by {
            lemma_event_pieces(s@, m);
        }
    }
    let a6 = match expect_lit(s, b5, ",\"description\":\"") {
        Option::Some(j) => j,
        Option::None => {
            proof {
                assert forall|m: EventV| !is_record_of(s@, m) by {
                    if is_record_of(s@, m) {
                        lemma_event_pieces(s@, m);
                    }
                }
            }
            return Option::None;
        }
    };
    let (description, b6) = match parse_qtail(s, a6) {
        Option::Some(p) => p,
        Option::None => {
            proof {
                assert forall|m: EventV| !is_record_of(s@, m) by {
                    if is_record_of(s@, m) {
                        lemma_event_pieces(s@, m);
                    }
                }
            }
            return Option::None;
        }
    };
    proof {
        assert forall|m: EventV| is_record_of(s@, m) implies description@ == m.description && b6
            == enc_p6(m).len() by {
            lemma_event_pieces(s@, m);
        }
    }
    let e = (uuid, account, application, type_, name, description);
    proof {
        let hv = head_ev(e.0@, e.1@, e.2@, e.3@, e.4@, e.5@);
        assert(s@.subrange(0, b1 as int) =~= enc_p1(hv)) by {
            lemma_subrange_join(s@, 0, a1 as int, b1 as int);
            assert(s@.subrange(0, a1 as int) == "{\"uuid\":\""@);
        }
        assert(s@.subrange(0, b2 as int) =~= enc_p2(hv)) by {
            lemma_subrange_join(s@, 0, b1 as int, a2 as int);
            lemma_subrange_join(s@, 0, a2 as int, b2 as int);
            assert(s@.subrange(b1 as int, a2 as int) == ",\"account\":\""@);
        }
        assert(s@.subrange(0, b3 as int) =~= enc_p3(hv)) by {
            lemma_subrange_join(s@, 0, b2 as int, a3 as int);
            lemma_subrange_join(s@, 0, a3 as int, b3 as int);
            assert(s@.subrange(b2 as int, a3 as int) == ",\"application\":\""@);
        }
        assert(s@.subrange(0, b4 as int) =~= enc_p4(hv)) by {
            lemma_subrange_join(s@, 0, b3 as int, a4 as int);
            lemma_subrange_join(s@, 0, a4 as int, b4 as int);
            assert(s@.subrange(b3 as int, a4 as int) == ",\"type\":\""@);
        }
        assert(s@.subrange(0, b5 as int) =~= enc_p5(hv)) by {
            lemma_subrange_join(s@, 0, b4 as int, a5 as int);
            lemma_subrange_join(s@, 0, a5 as int, b5 as int);
            assert(s@.subrange(b4 as int, a5 as int) == ",\"name\":\""@);
        }
        assert(s@.subrange(0, b6 as int) =~= enc_p6(hv)) by {
            lemma_subrange_join(s@, 0, b5 as int, a6 as int);
            lemma_subrange_join(s@, 0, a6 as int, b6 as int);
            assert(s@.subrange(b5 as int, a6 as int) == ",\"description\":\""@);
        }
    }
    Option::Some((e, b6))
}

/// Parses a full record. Returns the event exactly when the whole input is
/// the record text of some event.
#[verifier::rlimit(100)]
fn parse_event(s: &Vec<char>) -> (r: Option<Event>)
    ensures
        (match r {
            Option::Some(e) => wf_event(e@) && s@ == enc_event(e@),
            Option::None => true,
        }),
        forall|m: EventV| is_record_of(s@, m) ==> (r is Some && #[trigger] (r->0)@ == m),
{
    proof {
        assert forall|m: EventV| is_record_of(s@, m) implies prefix_at(s@, 0, enc_event(m)) by {
            assert(s@.subrange(0, enc_event(m).len() as int) =~= enc_event(m));
        }
    }
    let ((uuid, account, application, type_, name, description), b6) = match parse_head(s) {
        Option::Some(p) => p,
        Option::None => {
            return Option::None;
        }
    };
    proof {
        assert forall|m: EventV| is_record_of(s@, m) implies uuid@ == m.uuid && account@
            == m.account && application@ == m.application && type_@ == m.type_ && name@ == m.name
            && description@ == m.description && b6 == enc_p6(m).len() by {
        }
    }
    let a7 = match expect_lit(s, b6, ",\"timestamp\":") {
        Option::Some(j) => j,
        Option::None => {
            proof {
                assert forall|m: EventV| !is_record_of(s@, m) by {
                    if is_record_of(s@, m) {
                        lemma_event_pieces(s@, m);
                    }
                }
            }
            return Option::None;
        }
    };
    let (timestamp, b7) = match parse_ts(s, a7) {
        Option::Some(p) => p,
        Option::None => {
            proof {
                assert forall|m: EventV| !is_record_of(s@, m) by {
                    if is_record_of(s@, m) {
                        lemma_event_pieces(s@, m);
                    }
                }
            }
            return Option::None;
        }
    };
    proof {
        assert forall|m: EventV| is_record_of(s@, m) implies view_opt_ts(timestamp) == m.timestamp
            && b7 == enc_p7(m).len() by {
            lemma_event_pieces(s@, m);
        }
    }
    let a8 = match expect_lit(s, b7, ",\"timezone\":") {
        Option::Some(j) => j,
        Option::None => {
            proof {
                assert forall|m: EventV| !is_record_of(s@, m) by {
                    if is_record_of(s@, m) {
                        lemma_event_pieces(s@, m);
                    }
                }
            }
            return Option::None;
        }
    };
    let (timezone, b8) = match parse_tz(s, a8) {
        Option::Some(p) => p,
        Option::None => {
            proof {
                assert forall|m: EventV| !is_record_of(s@, m) by {
                    if is_record_of(s@, m) {
                        lemma_event_pieces(s@, m);
                    }
                }
            }
            return Option::None;
        }
    };
    proof {
        assert forall|m: EventV| is_record_of(s@, m) implies view_opt_tz(timezone) == m.timezone
            && b8 == enc_p8(m).len() by {
            lemma_event_pieces(s@, m);
        }
    }
    let a9 = match expect_lit(s, b8, ",\"real_time\":") {
        Option::Some(j) => j,
        Option::None => {
            proof {
                assert forall|m: EventV| !is_record_of(s@, m) by {
                    if is_record_of(s@, m) {
                        lemma_event_pieces(s@, m);
                    }
                }
            }
            return Option::None;
        }
    };
    let (real_time, b9) = match parse_bool(s, a9) {
        Option::Some(p) => p,
        Option::None => {
            proof {
                assert forall|m: EventV| !is_record_of(s@, m) by {
                    if is_record_of(s@, m) {
                        lemma_event_pieces(s@, m);
                    }
                }
            }
            return Option::None;
        }
    };
    proof {
        assert forall|m: EventV| is_record_of(s@, m) implies real_time == m.real_time && b9
            == enc_p9(m).len() by {
            lemma_event_pieces(s@, m);
        }
    }
    let a10 = match expect_lit(s, b9, ",\"synced\":") {
        Option::Some(j) => j,
        Option::None => {
            proof {
                assert forall|m: EventV| !is_record_of(s@, m) by {
                    if is_record_of(s@, m) {
                        lemma_event_pieces(s@, m);
                    }
                }
            }
            return Option::None;
        }
    };
    let (synced, b10) = match parse_ts(s, a10) {
        Option::Some(p) => p,
        Option::None => {
            proof {
                assert forall|m: EventV| !is_record_of(s@, m) by {
                    if is_record_of(s@, m) {
                        lemma_event_pieces(s@, m);
                    }
                }
            }
            return Option::None;
        }
    };
    proof {
        assert forall|m: EventV| is_record_of(s@, m) implies view_opt_ts(synced) == m.synced && b10
            == enc_p10(m).len() by {
            lemma_event_pieces(s@, m);
        }
    }
    let a11 = match expect_lit(s, b10, ",\"additional\":") {
        Option::Some(j) => j,
        Option::None => {
            proof {
                assert forall|m: EventV| !is_record_of(s@, m) by {
                    if is_record_of(s@, m) {
                        lemma_event_pieces(s@, m);
                    }
                }
            }
            return Option::None;
        }
    };
    let (additional, b11) = match parse_add(s, a11) {
        Option::Some(p) => p,
        Option::None => {
            proof {
                assert forall|m: EventV| !is_record_of(s@, m) by {
                    if is_record_of(s@, m) {
                        lemma_event_pieces(s@, m);
                    }
                }
            }
            return Option::None;
        }
    };
    proof {
        assert forall|m: EventV| is_record_of(s@, m) implies view_opt_add(additional)
            == m.additional && b11 == enc_p11(m).len() by {
            lemma_event_pieces(s@, m);
        }
    }
    let b12 = match expect_char(s, b11, '}') {
        Option::Some(j) => j,
        Option::None => {
            proof {
                assert forall|m: EventV| !is_record_of(s@, m) by {
                    if is_record_of(s@, m) {
                        lemma_event_pieces(s@, m);
                        lemma_prefix_index(s@, enc_p11(m).len() as int, seq!['}'], 0);
                    }
                }
            }
            return Option::None;
        }
    };
    if b12 != s.len() {
        proof {
            assert forall|m: EventV| !is_record_of(s@, m) by {
                if is_record_of(s@, m) {
                    lemma_event_pieces(s@, m);
                }
            }
        }
        return Option::None;
    }
    let e = Event {
        uuid,
        account,
        application,
        type_,
        name,
        description,
        timestamp,
        timezone,
        real_time,
        synced,
        additional,
    };
    proof {
        let ev = e@;
        assert(s@.subrange(0, b6 as int) =~= enc_p6(ev)) by {
            assert(s@.subrange(0, b6 as int) == enc_p6(
                head_ev(uuid@, account@, application@, type_@, name@, description@),
            ));
        }
        assert(s@.subrange(0, b7 as int) =~= enc_p7(ev)) by {
            lemma_subrange_join(s@, 0, b6 as int, a7 as int);
            lemma_subrange_join(s@, 0, a7 as int, b7 as int);
            assert(s@.subrange(b6 as int, a7 as int) == ",\"timestamp\":"@);
        }
        assert(s@.subrange(0, b8 as int) =~= enc_p8(ev)) by {
            lemma_subrange_join(s@, 0, b7 as int, a8 as int);
            lemma_subrange_join(s@, 0, a8 as int, b8 as int);
            assert(s@.subrange(b7 as int, a8 as int) == ",\"timezone\":"@);
        }
        assert(s@.subrange(0, b9 as int) =~= enc_p9(ev)) by {
            lemma_subrange_join(s@, 0, b8 as int, a9 as int);
            lemma_subrange_join(s@, 0, a9 as int, b9 as int);
            assert(s@.subrange(b8 as int, a9 as int) == ",\"real_time\":"@);
        }
        assert(s@.subrange(0, b10 as int) =~= enc_p10(ev)) by {
            lemma_subrange_join(s@, 0, b9 as int, a10 as int);
            lemma_subrange_join(s@, 0, a10 as int, b10 as int);
            assert(s@.subrange(b9 as int, a10 as int) == ",\"synced\":"@);
        }
        assert(s@.subrange(0, b11 as int) =~= enc_p11(ev)) by {
            lemma_subrange_join(s@, 0, b10 as int, a11 as int);
            lemma_subrange_join(s@, 0, a11 as int, b11 as int);
            assert(s@.subrange(b10 as int, a11 as int) == ",\"additional\":"@);
        }
        assert(s@.subrange(0, b12 as int) =~= enc_event(ev)) by {
            lemma_subrange_join(s@, 0, b11 as int, b12 as int);
            assert(s@.subrange(b11 as int, b12 as int) =~= seq!['}']);
        }
        assert(s@ =~= s@.subrange(0, b12 as int));
        assert forall|m: EventV| is_record_of(s@, m) implies e@ == m by {
            assert(e@ =~= m);
        }
    }
    Option::Some(e)
}

/// Decodes one stored record line. Succeeds exactly on the record text of
/// an event, returning that event; any other line is an internal error.
///
/// The three payload alternatives are mutually exclusive: a payload object
/// holding more than one of the keys `bytes`, `str` and `yaml` is not the
/// record text of any event, so the whole line is refused with the
/// internal error. Alternatives are never merged, and none is picked
/// silently over another.
pub fn decode_event(line: &str) -> (r: Result<Event, crate::event::ErrorDetails>)
    ensures
        (match r {
            Result::Ok(e) => wf_event(e@) && line@ == enc_event(e@),
            Result::Err(err) => {
                &&& err.code == 500
                &&& err.message@ == "Internal server error"@
                &&& forall|m: EventV| wf_event(m) ==> line@ != enc_event(m)
            },
        }),
        forall|m: EventV|
            wf_event(m) && line@ == enc_event(m) ==> (r is Ok && #[trigger] (r->Ok_0)@ == m),
{
    let cs = str_to_chars(line);
    match parse_event(&cs) {
        Option::Some(e) => {
            proof {
                assert forall|m: EventV| wf_event(m) && line@ == enc_event(m) implies e@ == m by {
                    assert(is_record_of(cs@, m));
                }
            }
            Result::Ok(e)
        }
        Option::None => {
            proof {
                assert forall|m: EventV| wf_event(m) implies line@ != enc_event(m) by {
                    if line@ == enc_event(m) {
                        assert(is_record_of(cs@, m));
                    }
                }
            }
            Result::Err(crate::event::server_error())
        }
    }
}

/// The round-trip law: decoding the encoded record text of any event
/// recovers that event exactly, for every payload variant and every
/// combination of absent optional fields.
pub fn encode_decode_round_trip(e: &Event) -> (r: Event)
    ensures
        r@ == e@,
{
    let line = encode_event(e);
    let d = decode_event(line.as_str());
    proof {
        assert(wf_event(e@));
        assert(d is Ok && (d->Ok_0)@ == e@);
    }
    match d {
        Result::Ok(out) => out,
        Result::Err(_) => {
            proof {
                assert(false);
            }
            e.duplicate()
        }
    }
}

} // verus!
