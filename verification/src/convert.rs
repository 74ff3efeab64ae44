//! Conversion of human-readable token amounts into base units.
//!
//! An amount is a decimal numeral with an optional fraction of at
//! most nine digits.  One token is a billion base units, so the base
//! unit form is the integer and fraction digits run together, the
//! fraction padded to nine places, with leading zeros dropped.  The
//! digit strings are carried as text throughout, so amounts of any
//! size convert exactly.
use vstd::prelude::*;
use vstd::string::StrSliceExecFns;

verus! {

/// A decimal digit character.
pub open spec fn is_dec_digit(c: char) -> bool {
    48 <= (c as u32) && (c as u32) <= 57
}

/// Every character of the string is a decimal digit.
pub open spec fn all_dec_digits(s: Seq<char>) -> bool {
    forall|i: int| 0 <= i < s.len() ==> is_dec_digit(#[trigger] s[i])
}

/// The position of the first full stop, or the length if there is
/// none.
pub open spec fn dot_pos(s: Seq<char>, i: int) -> int
    decreases s.len() - i,
{
    if i < 0 || i >= s.len() {
        s.len() as int
    } else if s[i] == '.' {
        i
    } else {
        dot_pos(s, i + 1)
    }
}

/// A run of zero characters.
pub open spec fn zeros(n: int) -> Seq<char> {
    Seq::new(n as nat, |i: int| '0')
}

/// The string with its redundant leading zeros dropped.
pub open spec fn strip_zeros(s: Seq<char>) -> Seq<char>
    decreases s.len(),
{
    if s.len() > 1 && s[0] == '0' {
        strip_zeros(s.skip(1))
    } else {
        s
    }
}

/// What converting an amount yields: the base unit numeral, or
/// nothing when the text is not a well-formed amount.
pub open spec fn convert_spec(v: Seq<char>) -> Option<Seq<char>> {
    let d = dot_pos(v, 0);
    let ip = v.take(d);
    let fp = if d == v.len() {
        Seq::empty()
    } else {
        v.skip(d + 1)
    };
    if ip.len() >= 1 && all_dec_digits(ip) && (d == v.len() || (1 <= fp.len() && fp.len() <= 9
        && all_dec_digits(fp))) {
        Some(strip_zeros(ip + fp + zeros(9 - fp.len())))
    } else {
        None
    }
}

/// The amount text is not a well-formed decimal numeral.
#[derive(Debug, PartialEq, Eq)]
pub struct ConvertError;

/// Converts a token amount into its base unit numeral.
pub fn convert_token(value: &str) -> (r: Result<String, ConvertError>)
    ensures
        match r {
            Ok(s) => convert_spec(value@) == Some(s@),
            Err(_) => convert_spec(value@) is None,
        },
{
    let n = value.unicode_len();
    let mut d: usize = 0;
    while d < n && value.get_char(d) != '.'
        invariant
            d <= n,
            n == value@.len(),
            dot_pos(value@, 0) == dot_pos(value@, d as int),
        decreases n - d,
    {
        d = d + 1;
    }
    proof {
        assert(d as int == dot_pos(value@, 0));
    }
    if d == 0 {
        return Err(ConvertError);
    }
    let mut i: usize = 0;
    while i < d
        invariant
            i <= d <= n,
            n == value@.len(),
            d as int == dot_pos(value@, 0),
            forall|k: int| 0 <= k < i ==> is_dec_digit(#[trigger] value@[k]),
        decreases d - i,
    {
        let c = value.get_char(i);
        let u = c as u32;
        if u < 48 || u > 57 {
            proof {
                assert(value@.take(d as int)[i as int] == value@[i as int]);
                assert(!all_dec_digits(value@.take(d as int)));
            }
            return Err(ConvertError);
        }
        i = i + 1;
    }
    proof {
        assert(all_dec_digits(value@.take(d as int))) by {
            assert forall|k: int| 0 <= k < d implies is_dec_digit(
                #[trigger] value@.take(d as int)[k],
            ) by {
                assert(value@.take(d as int)[k] == value@[k]);
            }
        }
    }
    let flen: usize = if d == n {
        0
    } else {
        n - d - 1
    };
    if d < n {
        if flen < 1 || flen > 9 {
            return Err(ConvertError);
        }
        let mut j: usize = d + 1;
        while j < n
            invariant
                d + 1 <= j <= n,
                n == value@.len(),
                d as int == dot_pos(value@, 0),
                forall|k: int| d + 1 <= k < j ==> is_dec_digit(#[trigger] value@[k]),
            decreases n - j,
        {
            let c = value.get_char(j);
            let u = c as u32;
            if u < 48 || u > 57 {
                proof {
                    assert(value@.skip(d as int + 1)[j - d - 1] == value@[j as int]);
                    assert(!all_dec_digits(value@.skip(d as int + 1)));
                }
                return Err(ConvertError);
            }
            j = j + 1;
        }
        proof {
            assert(all_dec_digits(value@.skip(d as int + 1))) by {
                assert forall|k: int| 0 <= k < n - d - 1 implies is_dec_digit(
                    #[trigger] value@.skip(d as int + 1)[k],
                ) by {
                    assert(value@.skip(d as int + 1)[k] == value@[k + d + 1]);
                }
            }
        }
    }
    let ghost ip = value@.take(d as int);
    let ghost fp = if d == n {
        Seq::<char>::empty()
    } else {
        value@.skip(d as int + 1)
    };
    let mut raw: Vec<char> = Vec::new();
    let mut i2: usize = 0;
    while i2 < d
        invariant
            i2 <= d <= n,
            n == value@.len(),
            raw@ == value@.take(i2 as int),
        decreases d - i2,
    {
        proof {
            assert(value@.take(i2 + 1) =~= value@.take(i2 as int).push(value@[i2 as int]));
        }
        raw.push(value.get_char(i2));
        i2 = i2 + 1;
    }
    if d < n {
        let mut j2: usize = d + 1;
        while j2 < n
            invariant
                d + 1 <= j2 <= n,
                n == value@.len(),
                raw@ == value@.take(d as int) + value@.subrange(d as int + 1, j2 as int),
            decreases n - j2,
        {
            proof {
                assert(value@.take(d as int) + value@.subrange(d as int + 1, j2 + 1)
                    =~= (value@.take(d as int) + value@.subrange(d as int + 1, j2 as int)).push(
                    value@[j2 as int],
                ));
            }
            raw.push(value.get_char(j2));
            j2 = j2 + 1;
        }
    }
    proof {
        assert(raw@ =~= ip + fp);
    }
    proof {
        assert(ip + fp + zeros(0) =~= ip + fp);
    }
    let mut z: usize = 0;
    let pad: usize = 9 - flen;
    while z < pad
        invariant
            z <= pad,
            raw@ == ip + fp + zeros(z as int),
        decreases pad - z,
    {
        proof {
            assert(ip + fp + zeros(z + 1) =~= (ip + fp + zeros(z as int)).push('0'));
        }
        raw.push('0');
        z = z + 1;
    }
    proof {
        assert(raw@ == ip + fp + zeros(9 - fp.len()));
    }
    let mut lead: usize = 0;
    let rn = raw.len();
    proof {
        assert(strip_zeros(raw@) == strip_zeros(raw@.skip(0))) by {
            assert(raw@.skip(0) =~= raw@);
        }
    }
    while lead + 1 < rn && raw[lead] == '0'
        invariant
            lead < rn,
            rn == raw@.len(),
            strip_zeros(raw@) == strip_zeros(raw@.skip(lead as int)),
        decreases rn - lead,
    {
        proof {
            assert(raw@.skip(lead as int).skip(1) =~= raw@.skip(lead + 1));
        }
        lead = lead + 1;
    }
    proof {
        assert(raw@.skip(lead as int)[0] == raw@[lead as int]);
        assert(strip_zeros(raw@.skip(lead as int)) == raw@.skip(lead as int));
    }
    let mut out = String::new();
    let mut k: usize = lead;
    while k < rn
        invariant
            lead <= k <= rn,
            rn == raw@.len(),
            out@ == raw@.subrange(lead as int, k as int),
        decreases rn - k,
    {
        proof {
            assert(raw@.subrange(lead as int, k + 1) =~= raw@.subrange(lead as int, k as int).push(
                raw@[k as int],
            ));
        }
        crate::strutil::string_push(&mut out, raw[k]);
        k = k + 1;
    }
    proof {
        assert(out@ =~= raw@.skip(lead as int));
    }
    Ok(out)
}

} // verus!
