//! Helpers around the engine: version comparison, the lock protocol, and the
//! plain-value parts of size, time and terminal formatting.
pub use crate::lock::{
    apt_is_locked, apt_lock, apt_lock_inner, apt_unlock, apt_unlock_inner, LockError, LockState,
};
pub use crate::version::cmp_versions;
use vstd::prelude::*;
use vstd::arithmetic::div_mod::lemma_fundamental_div_mod;
use vstd::string::StringExecFns;

verus! {

/// Rows assumed where the terminal's size is unknown.
pub const DEFAULT_ROWS: usize = 24;

/// Columns assumed where the terminal's size is unknown.
pub const DEFAULT_COLUMNS: usize = 80;

/// The terminal's height from its size as `(columns, rows)`, if known.
pub fn terminal_height_from(size: Option<(u16, u16)>) -> (r: usize)
    ensures
        r == match size {
            Some((_, rows)) => rows as usize,
            None => DEFAULT_ROWS,
        },
{
    match size {
        Some((_, rows)) => rows as usize,
        None => DEFAULT_ROWS,
    }
}

/// The terminal's width from its size as `(columns, rows)`, if known.
pub fn terminal_width_from(size: Option<(u16, u16)>) -> (r: usize)
    ensures
        r == match size {
            Some((cols, _)) => cols as usize,
            None => DEFAULT_COLUMNS,
        },
{
    match size {
        Some((cols, _)) => cols as usize,
        None => DEFAULT_COLUMNS,
    }
}

/// Disk space that a transaction will use.
pub enum DiskSpace {
    /// Additional space required.
    Require(u64),
    /// Space that will be freed.
    Free(u64),
}

/// Numeral system for unit conversion.
#[derive(Clone, Copy)]
pub enum NumSys {
    /// Base 2: 1024, KiB.
    Binary,
    /// Base 10: 1000, KB.
    Decimal,
}

pub open spec fn base_of(base: NumSys) -> nat {
    match base {
        NumSys::Binary => 1024,
        NumSys::Decimal => 1000,
    }
}

/// The power of the base by which a size is shown: the largest of the
/// fourth, third, second and first powers that `val` exceeds, or 0 where
/// `val` does not exceed the base (plain bytes).
pub open spec fn unit_power(val: nat, base: NumSys) -> nat {
    let k = base_of(base);
    if val > k * k * k * k {
        4
    } else if val > k * k * k {
        3
    } else if val > k * k {
        2
    } else if val > k {
        1
    } else {
        0
    }
}

/// The base raised to `power`, for a power of at most 4.
pub open spec fn divisor_of(power: nat, base: NumSys) -> nat {
    let k = base_of(base);
    if power == 4 {
        k * k * k * k
    } else if power == 3 {
        k * k * k
    } else if power == 2 {
        k * k
    } else if power == 1 {
        k
    } else {
        1
    }
}

/// The name of the unit for a power of the base.
pub open spec fn unit_name(power: nat, base: NumSys) -> Seq<char> {
    match base {
        NumSys::Binary => if power == 4 {
            "TiB"@
        } else if power == 3 {
            "GiB"@
        } else if power == 2 {
            "MiB"@
        } else if power == 1 {
            "KiB"@
        } else {
            "B"@
        },
        NumSys::Decimal => if power == 4 {
            "TB"@
        } else if power == 3 {
            "GB"@
        } else if power == 2 {
            "MB"@
        } else if power == 1 {
            "KB"@
        } else {
            "B"@
        },
    }
}

/// The divisor and the unit's name by which a byte count is shown.
pub fn unit_scale(val: u64, base: NumSys) -> (r: (u64, &'static str))
    ensures
        r.0 == divisor_of(unit_power(val as nat, base), base),
        r.1@ == unit_name(unit_power(val as nat, base), base),
{
    let k: u64 = match base {
        NumSys::Binary => 1024,
        NumSys::Decimal => 1000,
    };
    assert(k * k * k * k <= 1024u64 * 1024 * 1024 * 1024) by (nonlinear_arith)
        requires
            k <= 1024,
    ;
    let (power, divisor): (u64, u64) = if val > k * k * k * k {
        (4, k * k * k * k)
    } else if val > k * k * k {
        (3, k * k * k)
    } else if val > k * k {
        (2, k * k)
    } else if val > k {
        (1, k)
    } else {
        (0, 1)
    };
    let unit = match base {
        NumSys::Binary => if power == 4 {
            "TiB"
        } else if power == 3 {
            "GiB"
        } else if power == 2 {
            "MiB"
        } else if power == 1 {
            "KiB"
        } else {
            "B"
        },
        NumSys::Decimal => if power == 4 {
            "TB"
        } else if power == 3 {
            "GB"
        } else if power == 2 {
            "MB"
        } else if power == 1 {
            "KB"
        } else {
            "B"
        },
    };
    (divisor, unit)
}

pub open spec fn digit_char(d: nat) -> char {
    seq!['0', '1', '2', '3', '4', '5', '6', '7', '8', '9'][d as int]
}

/// `n` written in decimal, without leading zeros.
pub open spec fn decimal(n: nat) -> Seq<char>
    decreases n,
{
    if n < 10 {
        seq![digit_char(n)]
    } else {
        decimal(n / 10).push(digit_char(n % 10))
    }
}

/// Relies on the `Display` of `u64` (through `to_string`): its decimal digits,
/// without sign or leading zeros.
#[verifier::external_body]
fn decimal_string(n: u64) -> (r: String)
    ensures
        r@ == decimal(n as nat),
{
    n.to_string()
}

/// A duration in seconds as days, hours, minutes and seconds: days and hours
/// are shown from a whole day and a whole hour on, minutes above one minute.
pub open spec fn time_text(s: nat) -> Seq<char> {
    if s >= 60 * 60 * 24 {
        decimal(s / 60 / 60 / 24) + "d "@ + decimal((s / 60 / 60) % 24) + "h "@ + decimal(
            (s / 60) % 60,
        ) + "min "@ + decimal(s % 60) + "s"@
    } else if s >= 60 * 60 {
        decimal((s / 60 / 60) % 24) + "h "@ + decimal((s / 60) % 60) + "min "@ + decimal(s % 60)
            + "s"@
    } else if s > 60 {
        decimal((s / 60) % 60) + "min "@ + decimal(s % 60) + "s"@
    } else {
        decimal(s) + "s"@
    }
}

/// Converts seconds into a human readable time string.
pub fn time_str(seconds: u64) -> (r: String)
    ensures
        r@ == time_text(seconds as nat),
{
    let mut out = String::new();
    if seconds >= 60 * 60 * 24 {
        out.append(decimal_string(seconds / 60 / 60 / 24).as_str());
        out.append("d ");
    }
    if seconds >= 60 * 60 {
        out.append(decimal_string((seconds / 60 / 60) % 24).as_str());
        out.append("h ");
    }
    if seconds > 60 {
        out.append(decimal_string((seconds / 60) % 60).as_str());
        out.append("min ");
        out.append(decimal_string(seconds % 60).as_str());
    } else {
        out.append(decimal_string(seconds).as_str());
    }
    out.append("s");
    out
}

/// What `time_str` shows reads back to the seconds given: its day, hour,
/// minute and second parts add up to them, and a shown hour is below 24 and
/// a shown minute below 60.
pub proof fn time_parts_read_back(s: nat)
    ensures
        s >= 60 * 60 * 24 ==> (s / 60 / 60 / 24) * 86400 + ((s / 60 / 60) % 24) * 3600 + ((s
            / 60) % 60) * 60 + s % 60 == s,
        60 * 60 <= s < 60 * 60 * 24 ==> ((s / 60 / 60) % 24) * 3600 + ((s / 60) % 60) * 60 + s
            % 60 == s,
        60 < s < 60 * 60 ==> ((s / 60) % 60) * 60 + s % 60 == s,
        (s / 60 / 60) % 24 < 24,
        (s / 60) % 60 < 60,
{
    let m = s / 60;
    let h = m / 60;
    let d = h / 24;
    lemma_fundamental_div_mod(s as int, 60);
    lemma_fundamental_div_mod(m as int, 60);
    lemma_fundamental_div_mod(h as int, 24);
    let r0 = s % 60;
    let r1 = m % 60;
    let r2 = h % 24;
    assert(s == 86400 * d + 3600 * r2 + 60 * r1 + r0) by (nonlinear_arith)
        requires
            s == 60 * m + r0,
            m == 60 * h + r1,
            h == 24 * d + r2,
    ;
    if s < 60 * 60 * 24 {
        assert(h < 24);
        assert(r2 == h);
    }
    if s < 60 * 60 {
        assert(m < 60);
        assert(r1 == m);
        assert(h == 0);
    }
}

} // verus!
