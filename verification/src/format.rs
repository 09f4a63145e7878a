use vstd::prelude::*;
use vstd::string::StringExecFns;

use crate::digits::{dec_rep, pad_rep, push_digits, push_pad, push_trimmed, trimmed_rep};
use crate::sample::Sample;

verus! {

/// `n` micro-units rendered as a whole-unit count with exactly six
/// fractional digits, e.g. 1700000000123456 micro-units become
/// "1700000000.123456" units.
pub open spec fn fixed6_rep(n: nat) -> Seq<char> {
    dec_rep(n / 1000000) + seq!['.'] + pad_rep(n % 1000000, 6)
}

/// `n` micro-units rendered with trailing fractional zeros removed and
/// without a decimal point when the fraction is zero: the shape Rust's
/// default float formatting gives an exact micro-precision value.
pub open spec fn short_rep(n: nat) -> Seq<char> {
    if n % 1000000 == 0 {
        dec_rep(n / 1000000)
    } else {
        dec_rep(n / 1000000) + seq!['.'] + trimmed_rep(n % 1000000, 6)
    }
}

/// The output encoding, chosen once at startup and fixed for the
/// lifetime of the probe loop.
#[derive(Clone, Copy, PartialEq, Eq, Structural, Debug)]
pub enum Format {
    Human,
    Csv,
    Json,
}

/// "<seconds>.<6 digits>: <milliseconds>.<6 digits> ms".
pub open spec fn human_rep(s: Sample) -> Seq<char> {
    fixed6_rep(s.timestamp_micros as nat) + seq![':', ' '] + fixed6_rep(s.rtt_nanos as nat) + seq![
        ' ',
        'm',
        's',
    ]
}

/// "<seconds>.<6 digits>,<milliseconds in shortest form>".
pub open spec fn csv_rep(s: Sample) -> Seq<char> {
    fixed6_rep(s.timestamp_micros as nat) + seq![','] + short_rep(s.rtt_nanos as nat)
}

pub open spec fn render_rep(f: Format, s: Sample) -> Seq<char> {
    match f {
        Format::Human => human_rep(s),
        Format::Csv => csv_rep(s),
        Format::Json => crate::json::json_rep(s),
    }
}

/// Appends `n` micro-units as fixed six-decimal text.
pub(crate) fn push_fixed6(out: &mut String, n: u64)
    ensures
        final(out)@ == old(out)@ + fixed6_rep(n as nat),
{
    push_digits(out, n / 1000000);
    out.append(".");
    push_pad(out, n % 1000000, 6);
    proof {
        reveal_strlit(".");
        assert("."@ =~= seq!['.']);
        assert(final(out)@ =~= old(out)@ + fixed6_rep(n as nat));
    }
}

/// Appends `n` micro-units in shortest decimal form.
pub(crate) fn push_short(out: &mut String, n: u64)
    ensures
        final(out)@ == old(out)@ + short_rep(n as nat),
{
    push_digits(out, n / 1000000);
    if n % 1000000 != 0 {
        out.append(".");
        push_trimmed(out, n % 1000000, 6);
        proof {
            reveal_strlit(".");
            assert("."@ =~= seq!['.']);
            assert(final(out)@ =~= old(out)@ + short_rep(n as nat));
        }
    }
}

impl Format {
    /// Which encoding a configuration name selects; an unknown name
    /// selects none and is a startup-time error.
    pub open spec fn of_name_rep(name: Seq<char>) -> Option<Format> {
        if name == "human"@ {
            Some(Format::Human)
        } else if name == "csv"@ {
            Some(Format::Csv)
        } else if name == "json"@ {
            Some(Format::Json)
        } else {
            None
        }
    }

    pub fn from_name(name: &str) -> (r: Option<Format>)
        ensures
            r == Format::of_name_rep(name@),
    {
        let n = String::from_str(name);
        if n == String::from_str("human") {
            Some(Format::Human)
        } else if n == String::from_str("csv") {
            Some(Format::Csv)
        } else if n == String::from_str("json") {
            Some(Format::Json)
        } else {
            None
        }
    }
}

/// Renders one sample in the chosen encoding. A pure function of the
/// sample: equal samples always render to equal lines.
pub fn render(f: Format, s: &Sample) -> (r: String)
    ensures
        r@ == render_rep(f, *s),
{
    match f {
        Format::Human => {
            let mut out = String::new();
            push_fixed6(&mut out, s.timestamp_micros);
            out.append(": ");
            push_fixed6(&mut out, s.rtt_nanos);
            out.append(" ms");
            proof {
                reveal_strlit(": ");
                reveal_strlit(" ms");
                assert(": "@ =~= seq![':', ' ']);
                assert(" ms"@ =~= seq![' ', 'm', 's']);
                assert(out@ =~= human_rep(*s));
            }
            out
        }
        Format::Csv => {
            let mut out = String::new();
            push_fixed6(&mut out, s.timestamp_micros);
            out.append(",");
            push_short(&mut out, s.rtt_nanos);
            proof {
                reveal_strlit(",");
                assert(","@ =~= seq![',']);
                assert(out@ =~= csv_rep(*s));
            }
            out
        }
        Format::Json => crate::json::render_json(s),
    }
}

} // verus!
