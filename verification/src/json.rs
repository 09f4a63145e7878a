use vstd::prelude::*;
use vstd::string::StringExecFns;

use crate::digits::{
    all_digits, dec_rep, digit_of, digit_val, digits_val, is_digit_char, lemma_dec_rep_digits,
    lemma_dec_rep_val, lemma_digits_val_bound, lemma_digits_val_prefix_le, lemma_p10_add,
    lemma_p10_mono, lemma_p10_pos, lemma_p10_table, lemma_trimmed_rep_val, p10, pow10_small,
    push_digits, push_trimmed, trimmed_rep,
};
use crate::sample::Sample;
use vstd::arithmetic::div_mod::lemma_fundamental_div_mod;
use vstd::string::StrSliceExecFns;

verus! {

/// `n` micro-units as a JSON number: shortest decimal form, except that
/// a whole value keeps a single zero after the point, the shape
/// standard JSON float encoders give.
pub open spec fn json_num_rep(n: nat) -> Seq<char> {
    if n % 1000000 == 0 {
        dec_rep(n / 1000000) + seq!['.', '0']
    } else {
        dec_rep(n / 1000000) + seq!['.'] + trimmed_rep(n % 1000000, 6)
    }
}

pub open spec fn json_prefix() -> Seq<char> {
    seq!['{', '"', 't', 'i', 'm', 'e', 's', 't', 'a', 'm', 'p', '"', ':']
}

pub open spec fn json_mid() -> Seq<char> {
    seq![',', '"', 'r', 't', 't', '"', ':']
}

/// The structured record for timestamp `ts` (epoch microseconds) and
/// round trip `rtt` (nanoseconds): an object with a `timestamp` field
/// in seconds and an `rtt` field in milliseconds.
pub open spec fn json_rep_of(ts: nat, rtt: nat) -> Seq<char> {
    json_prefix() + json_num_rep(ts) + json_mid() + json_num_rep(rtt) + seq!['}']
}

pub open spec fn json_rep(s: Sample) -> Seq<char> {
    json_rep_of(s.timestamp_micros as nat, s.rtt_nanos as nat)
}

/// Appends `n` micro-units as a JSON number.
pub(crate) fn push_json_num(out: &mut String, n: u64)
    ensures
        final(out)@ == old(out)@ + json_num_rep(n as nat),
{
    push_digits(out, n / 1000000);
    if n % 1000000 == 0 {
        out.append(".0");
        proof {
            reveal_strlit(".0");
            assert(".0"@ =~= seq!['.', '0']);
            assert(final(out)@ =~= old(out)@ + json_num_rep(n as nat));
        }
    } else {
        out.append(".");
        push_trimmed(out, n % 1000000, 6);
        proof {
            reveal_strlit(".");
            assert("."@ =~= seq!['.']);
            assert(final(out)@ =~= old(out)@ + json_num_rep(n as nat));
        }
    }
}

/// Renders one sample as a structured record.
pub fn render_json(s: &Sample) -> (r: String)
    ensures
        r@ == json_rep(*s),
{
    let mut out = String::from_str("{\"timestamp\":");
    push_json_num(&mut out, s.timestamp_micros);
    out.append(",\"rtt\":");
    push_json_num(&mut out, s.rtt_nanos);
    out.append("}");
    proof {
        reveal_strlit("{\"timestamp\":");
        reveal_strlit(",\"rtt\":");
        reveal_strlit("}");
        assert("{\"timestamp\":"@ =~= json_prefix());
        assert(",\"rtt\":"@ =~= json_mid());
        assert("}"@ =~= seq!['}']);
        assert(out@ =~= json_rep(*s));
    }
    out
}

/// Index of the first occurrence of `c` in `t`.
pub open spec fn find_first(t: Seq<char>, c: char) -> Option<nat>
    decreases t.len(),
{
    if t.len() == 0 {
        None
    } else if t[0] == c {
        Some(0 as nat)
    } else {
        match find_first(t.drop_first(), c) {
            Some(i) => Some((i + 1) as nat),
            None => None,
        }
    }
}

pub proof fn lemma_find_first_concat(a: Seq<char>, b: Seq<char>, c: char)
    requires
        forall|i: int| 0 <= i < a.len() ==> a[i] != c,
    ensures
        find_first(a + b, c) == match find_first(b, c) {
            Some(j) => Some((a.len() + j) as nat),
            None => None::<nat>,
        },
    decreases a.len(),
{
    if a.len() == 0 {
        assert(a + b =~= b);
    } else {
        assert((a + b).len() > 0);
        assert((a + b)[0] == a[0]);
        assert((a + b).drop_first() =~= a.drop_first() + b);
        assert forall|i: int| 0 <= i < a.drop_first().len() implies a.drop_first()[i] != c by {
            assert(a.drop_first()[i] == a[i + 1]);
        }
        lemma_find_first_concat(a.drop_first(), b, c);
    }
}

/// A scan that stops at the first hit computes `find_first`.
pub proof fn lemma_find_first_at(t: Seq<char>, c: char, i: int)
    requires
        0 <= i < t.len(),
        t[i] == c,
        forall|k: int| 0 <= k < i ==> t[k] != c,
    ensures
        find_first(t, c) == Some(i as nat),
{
    let a = t.subrange(0, i);
    let b = t.subrange(i, t.len() as int);
    assert(t =~= a + b);
    assert(b[0] == c);
    assert(find_first(b, c) == Some(0 as nat));
    assert forall|k: int| 0 <= k < a.len() implies a[k] != c by {
        assert(a[k] == t[k]);
    }
    lemma_find_first_concat(a, b, c);
}

pub proof fn lemma_find_first_none(t: Seq<char>, c: char)
    requires
        forall|k: int| 0 <= k < t.len() ==> t[k] != c,
    ensures
        find_first(t, c) is None,
    decreases t.len(),
{
    if t.len() > 0 {
        assert forall|k: int| 0 <= k < t.drop_first().len() implies t.drop_first()[k] != c by {
            assert(t.drop_first()[k] == t[k + 1]);
        }
        lemma_find_first_none(t.drop_first(), c);
    }
}

/// Decodes a JSON number of the renderer's shape back to micro-units:
/// a nonempty integer part, a point, and one to six fractional digits.
pub open spec fn parse_num(t: Seq<char>) -> Option<nat> {
    match find_first(t, '.') {
        None => None,
        Some(d) => {
            let ip = t.subrange(0, d as int);
            let fp = t.subrange(d as int + 1, t.len() as int);
            if ip.len() >= 1 && all_digits(ip) && 1 <= fp.len() <= 6 && all_digits(fp) {
                Some(digits_val(ip) * 1000000 + digits_val(fp) * p10((6 - fp.len()) as nat))
            } else {
                None
            }
        },
    }
}

/// Decodes a structured record: the timestamp and round-trip values in
/// micro- and nanoseconds, for exactly the strings whose shape the
/// renderer produces.
pub open spec fn parse_json_rep(t: Seq<char>) -> Option<(nat, nat)> {
    match find_first(t, ',') {
        None => None,
        Some(c) => {
            if 13 <= c && c + 8 <= t.len() && t.subrange(0, 13) == json_prefix() && t.subrange(
                c as int,
                c as int + 7,
            ) == json_mid() && t[t.len() - 1] == '}' {
                match (parse_num(t.subrange(13, c as int)), parse_num(
                    t.subrange(c as int + 7, t.len() - 1),
                )) {
                    (Some(a), Some(b)) => Some((a, b)),
                    _ => None,
                }
            } else {
                None
            }
        },
    }
}

/// A rendered number holds only digits and one point, never a comma,
/// a quote or a brace, and is at least three characters long.
pub proof fn lemma_json_num_chars(n: nat)
    ensures
        json_num_rep(n).len() >= 3,
        forall|i: int|
            0 <= i < json_num_rep(n).len() ==> (is_digit_char(#[trigger] json_num_rep(n)[i])
                || json_num_rep(n)[i] == '.'),
{
    let q = n / 1000000;
    let f = n % 1000000;
    lemma_dec_rep_digits(q);
    let ds = dec_rep(q);
    let t = json_num_rep(n);
    if f == 0 {
        assert forall|i: int| 0 <= i < t.len() implies (is_digit_char(#[trigger] t[i]) || t[i]
            == '.') by {
            if i < ds.len() {
                assert(t[i] == ds[i]);
            } else if i == ds.len() {
                assert(t[i] == '.');
            } else {
                assert(t[i] == '0');
            }
        }
    } else {
        lemma_p10_table();
        lemma_trimmed_rep_val(f, 6);
        let tr = trimmed_rep(f, 6);
        assert forall|i: int| 0 <= i < t.len() implies (is_digit_char(#[trigger] t[i]) || t[i]
            == '.') by {
            if i < ds.len() {
                assert(t[i] == ds[i]);
            } else if i == ds.len() {
                assert(t[i] == '.');
            } else {
                assert(t[i] == tr[i - ds.len() - 1]);
            }
        }
    }
}

/// Decoding a rendered number recovers the exact micro-unit count.
pub proof fn lemma_parse_num_rep(n: nat)
    ensures
        parse_num(json_num_rep(n)) == Some(n),
{
    let q = n / 1000000;
    let f = n % 1000000;
    lemma_dec_rep_digits(q);
    lemma_dec_rep_val(q);
    lemma_p10_table();
    let ds = dec_rep(q);
    assert forall|i: int| 0 <= i < ds.len() implies ds[i] != '.' by {
        assert(is_digit_char(ds[i]));
    }
    let t = json_num_rep(n);
    lemma_fundamental_div_mod(n as int, 1000000);
    if f == 0 {
        let b = seq!['.', '0'];
        assert(t == ds + b);
        assert(b[0] == '.');
        assert(find_first(b, '.') == Some(0 as nat));
        lemma_find_first_concat(ds, b, '.');
        assert(find_first(t, '.') == Some(ds.len()));
        let d = ds.len() as int;
        assert(t.subrange(0, d) =~= ds);
        let fp = t.subrange(d + 1, t.len() as int);
        assert(fp =~= seq!['0']);
        assert(fp.len() == 1);
        assert(all_digits(fp));
        assert(fp.drop_last() =~= Seq::<char>::empty());
        assert(fp.last() == '0');
        assert(digits_val(fp.drop_last()) == 0);
        assert(digits_val(fp) == digits_val(fp.drop_last()) * 10 + digit_val(fp.last()));
        assert(digits_val(fp) == 0);
        assert(digits_val(ds) * 1000000 + digits_val(fp) * p10(5) == n);
    } else {
        lemma_trimmed_rep_val(f, 6);
        let tr = trimmed_rep(f, 6);
        let b = seq!['.'] + tr;
        assert(t =~= ds + b);
        assert(b[0] == '.');
        assert(find_first(b, '.') == Some(0 as nat));
        lemma_find_first_concat(ds, b, '.');
        assert(find_first(t, '.') == Some(ds.len()));
        let d = ds.len() as int;
        assert(t.subrange(0, d) =~= ds);
        let fp = t.subrange(d + 1, t.len() as int);
        assert(fp =~= tr);
        assert(digits_val(ds) * 1000000 + digits_val(tr) * p10((6 - tr.len()) as nat) == n);
    }
}

/// Round trip at the level of values: decoding a rendered structured
/// record recovers the exact timestamp and round-trip counts.
pub proof fn lemma_json_round_trip(ts: nat, rtt: nat)
    ensures
        parse_json_rep(json_rep_of(ts, rtt)) == Some((ts, rtt)),
{
    let n1 = json_num_rep(ts);
    let n2 = json_num_rep(rtt);
    let t = json_rep_of(ts, rtt);
    lemma_json_num_chars(ts);
    lemma_json_num_chars(rtt);
    let a = json_prefix() + n1;
    let b = json_mid() + n2 + seq!['}'];
    assert(t =~= a + b);
    assert forall|i: int| 0 <= i < a.len() implies a[i] != ',' by {
        if i < 13 {
            assert(json_prefix()[i] != ',');
        } else {
            assert(a[i] == n1[i - 13]);
        }
    }
    assert(b[0] == ',');
    assert(find_first(b, ',') == Some(0 as nat));
    lemma_find_first_concat(a, b, ',');
    let c = a.len();
    assert(find_first(t, ',') == Some(c as nat));
    assert(t.len() == 13 + n1.len() + 7 + n2.len() + 1);
    assert(13 <= c && c + 8 <= t.len());
    assert(t.subrange(0, 13) =~= json_prefix());
    assert(t.subrange(13, c as int) =~= n1);
    assert(t.subrange(c as int, c as int + 7) =~= json_mid());
    assert(t.subrange(c as int + 7, t.len() - 1) =~= n2);
    assert(t[t.len() - 1] == '}');
    lemma_parse_num_rep(ts);
    lemma_parse_num_rep(rtt);
}

/// Round trip for every sample: what `render_json` writes, decoding
/// reads back unchanged.
pub proof fn lemma_sample_json_round_trip(s: Sample)
    ensures
        parse_json_rep(json_rep(s)) == Some((s.timestamp_micros as nat, s.rtt_nanos as nat)),
{
    lemma_json_round_trip(s.timestamp_micros as nat, s.rtt_nanos as nat);
}

/// Scans `u` for the first occurrence of `c`.
fn find_char(u: &str, c: char) -> (r: Option<usize>)
    ensures
        match r {
            Some(i) => i < u@.len() && find_first(u@, c) == Some(i as nat),
            None => find_first(u@, c) is None,
        },
{
    let n = u.unicode_len();
    let mut i: usize = 0;
    while i < n
        invariant
            i <= n,
            n as nat == u@.len(),
            forall|k: int| 0 <= k < i ==> u@[k] != c,
        decreases n - i,
    {
        if u.get_char(i) == c {
            proof {
                lemma_find_first_at(u@, c, i as int);
            }
            return Some(i);
        }
        i = i + 1;
    }
    proof {
        lemma_find_first_none(u@, c);
    }
    None
}

/// Reads the digit run `u[from..to]` as a decimal value; `None` when a
/// character is no digit or the value does not fit in 64 bits.
fn parse_digits_u64(u: &str, from: usize, to: usize) -> (r: Option<u64>)
    requires
        from <= to <= u@.len(),
    ensures
        match r {
            Some(v) => all_digits(u@.subrange(from as int, to as int)) && v as nat == digits_val(
                u@.subrange(from as int, to as int),
            ),
            None => !all_digits(u@.subrange(from as int, to as int)) || digits_val(
                u@.subrange(from as int, to as int),
            ) > u64::MAX,
        },
{
    let ghost part = u@.subrange(from as int, to as int);
    let mut acc: u64 = 0;
    let mut k: usize = from;
    while k < to
        invariant
            from <= k <= to <= u@.len(),
            part == u@.subrange(from as int, to as int),
            all_digits(u@.subrange(from as int, k as int)),
            acc as nat == digits_val(u@.subrange(from as int, k as int)),
        decreases to - k,
    {
        let ch = u.get_char(k);
        let d: u64 = match digit_of(ch) {
            Some(d) => d,
            None => {
                proof {
                    assert(part[k - from] == ch);
                    assert(!all_digits(part));
                }
                return None;
            },
        };
        if acc > (u64::MAX - d) / 10 {
            proof {
                lemma_fundamental_div_mod((u64::MAX - d) as int, 10);
                let next = u@.subrange(from as int, k as int + 1);
                assert(next.drop_last() =~= u@.subrange(from as int, k as int));
                assert(next.last() == ch);
                assert(digits_val(next) == acc as nat * 10 + digit_val(ch));
                assert(digits_val(next) > u64::MAX);
                lemma_digits_val_prefix_le(part, k as int + 1 - from);
                assert(part.take(k as int + 1 - from) =~= next);
                assert(digits_val(part) > u64::MAX);
            }
            return None;
        }
        proof {
            lemma_fundamental_div_mod((u64::MAX - d) as int, 10);
            assert(acc as nat * 10 + d <= u64::MAX);
        }
        acc = acc * 10 + d;
        k = k + 1;
        proof {
            let prev = u@.subrange(from as int, k as int - 1);
            let cur = u@.subrange(from as int, k as int);
            assert(cur.drop_last() =~= prev);
            assert(cur.last() == ch);
            assert forall|i: int| 0 <= i < cur.len() implies is_digit_char(#[trigger] cur[i]) by {
                if i < cur.len() - 1 {
                    assert(cur[i] == prev[i]);
                } else {
                    assert(cur[i] == ch);
                }
            }
            assert(digits_val(cur) == digits_val(prev) * 10 + digit_val(ch));
        }
    }
    proof {
        assert(u@.subrange(from as int, k as int) == part);
    }
    Some(acc)
}

/// Decodes one number region; `None` when the text is not of the
/// renderer's shape or the value does not fit in 64 bits.
fn parse_num_str(u: &str) -> (r: Option<u64>)
    ensures
        match parse_num(u@) {
            Some(v) => if v <= u64::MAX {
                r == Some(v as u64)
            } else {
                r is None
            },
            None => r is None,
        },
{
    let n = u.unicode_len();
    let dot: usize = match find_char(u, '.') {
        Some(d) => d,
        None => {
            return None;
        },
    };
    if dot < 1 {
        proof {
            assert(u@.subrange(0, dot as int).len() == 0);
        }
        return None;
    }
    let fl: usize = n - dot - 1;
    let ghost ip = u@.subrange(0, dot as int);
    let ghost fp = u@.subrange(dot as int + 1, u@.len() as int);
    proof {
        assert(ip.len() == dot as int);
        assert(fp.len() == fl as int);
    }
    if fl < 1 || fl > 6 {
        return None;
    }
    let ip_val: u64 = match parse_digits_u64(u, 0, dot) {
        Some(v) => v,
        None => {
            proof {
                if all_digits(ip) {
                    assert(digits_val(ip) * 1000000 >= digits_val(ip) * 1) by (nonlinear_arith);
                }
            }
            return None;
        },
    };
    let fp_val: u64 = match parse_digits_u64(u, dot + 1, n) {
        Some(v) => v,
        None => {
            proof {
                if all_digits(fp) {
                    lemma_digits_val_bound(fp);
                    lemma_p10_mono(fp.len() as nat, 6);
                    lemma_p10_table();
                }
            }
            return None;
        },
    };
    proof {
        lemma_digits_val_bound(fp);
        lemma_p10_table();
        lemma_p10_add(fl as nat, (6 - fl) as nat);
        lemma_p10_pos((6 - fl) as nat);
    }
    let scale: u64 = pow10_small(6 - (fl as u64));
    proof {
        let pfl = p10(fl as nat);
        let psc = p10((6 - fl) as nat);
        assert((fp_val as nat) * psc < 1000000) by (nonlinear_arith)
            requires
                (fp_val as nat) < pfl,
                pfl * psc == 1000000,
                psc >= 1,
        ;
    }
    let frac: u64 = fp_val * scale;
    if ip_val <= (u64::MAX - frac) / 1000000 {
        proof {
            lemma_fundamental_div_mod((u64::MAX - frac) as int, 1000000);
            assert((ip_val as nat) * 1000000 + frac as nat <= u64::MAX);
        }
        let result: u64 = ip_val * 1000000 + frac;
        proof {
            assert(parse_num(u@) == Some(
                digits_val(ip) * 1000000 + digits_val(fp) * p10((6 - fp.len()) as nat),
            ));
            assert(result as nat == digits_val(ip) * 1000000 + digits_val(fp) * p10(
                (6 - fp.len()) as nat,
            ));
        }
        Some(result)
    } else {
        proof {
            lemma_fundamental_div_mod((u64::MAX - frac) as int, 1000000);
            assert((ip_val as nat) * 1000000 + frac as nat > u64::MAX);
        }
        None
    }
}

/// Decodes one rendered structured record back into a sample. `None`
/// exactly when the text is not of the renderer's shape or a value
/// does not fit in 64 bits.
pub fn decode_json(s: &str) -> (r: Option<Sample>)
    ensures
        match parse_json_rep(s@) {
            Some(p) => if p.0 <= u64::MAX && p.1 <= u64::MAX {
                r matches Some(smp) && smp.timestamp_micros as nat == p.0 && smp.rtt_nanos as nat
                    == p.1
            } else {
                r is None
            },
            None => r is None,
        },
{
    let n = s.unicode_len();
    let comma: usize = match find_char(s, ',') {
        Some(c) => c,
        None => {
            return None;
        },
    };
    if comma < 13 {
        return None;
    }
    if n - comma < 8 {
        return None;
    }
    let pfx = s.substring_char(0, 13);
    let want_pfx = String::from_str("{\"timestamp\":");
    proof {
        reveal_strlit("{\"timestamp\":");
        assert("{\"timestamp\":"@ =~= json_prefix());
    }
    if !(String::from_str(pfx) == want_pfx) {
        return None;
    }
    let mid = s.substring_char(comma, comma + 7);
    let want_mid = String::from_str(",\"rtt\":");
    proof {
        reveal_strlit(",\"rtt\":");
        assert(",\"rtt\":"@ =~= json_mid());
    }
    if !(String::from_str(mid) == want_mid) {
        return None;
    }
    if s.get_char(n - 1) != '}' {
        return None;
    }
    let num1 = s.substring_char(13, comma);
    let num2 = s.substring_char(comma + 7, n - 1);
    let a: u64 = match parse_num_str(num1) {
        Some(v) => v,
        None => {
            return None;
        },
    };
    let b: u64 = match parse_num_str(num2) {
        Some(v) => v,
        None => {
            return None;
        },
    };
    Some(Sample { timestamp_micros: a, rtt_nanos: b })
}

} // verus!
