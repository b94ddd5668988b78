//! Rendering byte counts as short human-readable strings, e.g. `3 KiB` (the
//! count divided by the largest binary unit it strictly exceeds, with that
//! unit's suffix), and report lines as the scan prints them.
use crate::report::ReportLine;
use vstd::prelude::*;
use vstd::string::StrSliceExecFns;

verus! {

pub const KIB: u64 = 1024;

pub const MIB: u64 = 1024 * 1024;

pub const GIB: u64 = 1024 * 1024 * 1024;

/// The decimal digit characters `0` to `9`.
pub open spec fn digit_char(d: nat) -> char
    recommends
        d < 10,
{
    if d == 0 {
        '0'
    } else if d == 1 {
        '1'
    } else if d == 2 {
        '2'
    } else if d == 3 {
        '3'
    } else if d == 4 {
        '4'
    } else if d == 5 {
        '5'
    } else if d == 6 {
        '6'
    } else if d == 7 {
        '7'
    } else if d == 8 {
        '8'
    } else {
        '9'
    }
}

/// The decimal representation of a number, without leading zeros (a lone
/// zero for 0).
pub open spec fn dec_rep(n: nat) -> Seq<char>
    decreases n,
{
    if n < 10 {
        seq![digit_char(n)]
    } else {
        dec_rep(n / 10) + seq![digit_char(n % 10)]
    }
}

/// The human-readable form of a byte count: the count divided by the largest
/// binary unit it strictly exceeds, then that unit's suffix.
pub open spec fn nice_rep(bytes: u64) -> Seq<char> {
    if bytes > GIB {
        dec_rep((bytes / GIB) as nat) + " GiB"@
    } else if bytes > MIB {
        dec_rep((bytes / MIB) as nat) + " MiB"@
    } else if bytes > KIB {
        dec_rep((bytes / KIB) as nat) + " KiB"@
    } else {
        dec_rep(bytes as nat) + " B"@
    }
}

/// One decimal digit as a string slice.
fn digit_str(d: u64) -> (s: &'static str)
    requires
        d < 10,
    ensures
        s@ == seq![digit_char(d as nat)],
{
    if d == 0 {
        proof {
            reveal_strlit("0");
            assert("0"@ =~= seq!['0']);
        }
        "0"
    } else if d == 1 {
        proof {
            reveal_strlit("1");
            assert("1"@ =~= seq!['1']);
        }
        "1"
    } else if d == 2 {
        proof {
            reveal_strlit("2");
            assert("2"@ =~= seq!['2']);
        }
        "2"
    } else if d == 3 {
        proof {
            reveal_strlit("3");
            assert("3"@ =~= seq!['3']);
        }
        "3"
    } else if d == 4 {
        proof {
            reveal_strlit("4");
            assert("4"@ =~= seq!['4']);
        }
        "4"
    } else if d == 5 {
        proof {
            reveal_strlit("5");
            assert("5"@ =~= seq!['5']);
        }
        "5"
    } else if d == 6 {
        proof {
            reveal_strlit("6");
            assert("6"@ =~= seq!['6']);
        }
        "6"
    } else if d == 7 {
        proof {
            reveal_strlit("7");
            assert("7"@ =~= seq!['7']);
        }
        "7"
    } else if d == 8 {
        proof {
            reveal_strlit("8");
            assert("8"@ =~= seq!['8']);
        }
        "8"
    } else {
        proof {
            reveal_strlit("9");
            assert("9"@ =~= seq!['9']);
        }
        "9"
    }
}

/// A number in decimal, as a string.
pub fn u64_to_dec(n: u64) -> (s: String)
    ensures
        s@ == dec_rep(n as nat),
    decreases n,
{
    if n < 10 {
        let mut s = String::new();
        s.append(digit_str(n));
        proof {
            assert(s@ =~= dec_rep(n as nat));
        }
        s
    } else {
        let mut s = u64_to_dec(n / 10);
        s.append(digit_str(n % 10));
        s
    }
}

/// A byte count as a short human-readable string: divided by the largest
/// binary unit it strictly exceeds, with that unit's suffix.
pub fn bytes_to_nice(bytes: u64) -> (s: String)
    ensures
        s@ == nice_rep(bytes),
{
    if bytes > GIB {
        let mut s = u64_to_dec(bytes / GIB);
        s.append(" GiB");
        s
    } else if bytes > MIB {
        let mut s = u64_to_dec(bytes / MIB);
        s.append(" MiB");
        s
    } else if bytes > KIB {
        let mut s = u64_to_dec(bytes / KIB);
        s.append(" KiB");
        s
    } else {
        let mut s = u64_to_dec(bytes);
        s.append(" B");
        s
    }
}

/// A run of `n` spaces.
pub open spec fn spaces(n: nat) -> Seq<char>
    decreases n,
{
    if n == 0 {
        Seq::empty()
    } else {
        spaces((n - 1) as nat).push(' ')
    }
}

/// A sequence of characters padded with spaces on the right to at least `w`
/// characters.
pub open spec fn pad_to(s: Seq<char>, w: nat) -> Seq<char> {
    if s.len() >= w {
        s
    } else {
        s + spaces((w - s.len()) as nat)
    }
}

/// One report line as the scan prints it: the human-readable size padded to
/// at least 8 characters, an `f` or `d` marker, and the path.
pub open spec fn line_rep(l: ReportLine) -> Seq<char> {
    pad_to(nice_rep(l.size), 8) + (if l.is_file {
        " f "@
    } else {
        " d "@
    }) + l.path@
}

/// Renders one report line for printing.
pub fn render_line(l: &ReportLine) -> (s: String)
    ensures
        s@ == line_rep(*l),
{
    let mut s = bytes_to_nice(l.size);
    let ghost len0 = s@.len();
    let mut n = s.as_str().unicode_len();
    while n < 8
        invariant
            n as nat == s@.len(),
            s@ == nice_rep(l.size) + spaces((n as nat - len0) as nat),
            len0 <= n as nat,
            len0 >= 8 ==> n as nat == len0,
            len0 < 8 ==> n <= 8,
        decreases 8 - n,
    {
        s.append(" ");
        proof {
            reveal_strlit(" ");
            assert(" "@ =~= seq![' ']);
            assert((nice_rep(l.size) + spaces((n as nat - len0) as nat)) + " "@ =~= nice_rep(
                l.size,
            ) + spaces((n as nat + 1 - len0) as nat));
        }
        n = n + 1;
    }
    proof {
        assert(nice_rep(l.size) + spaces(0) =~= nice_rep(l.size));
        assert(s@ == pad_to(nice_rep(l.size), 8));
    }
    if l.is_file {
        s.append(" f ");
    } else {
        s.append(" d ");
    }
    s.append(l.path.as_str());
    s
}

/// The first summary line the scan prints.
pub fn total_line(total: u64) -> (s: String)
    ensures
        s@ == "Total size: "@ + nice_rep(total),
{
    let mut s = String::new();
    s.append("Total size: ");
    s.append(bytes_to_nice(total).as_str());
    proof {
        assert(Seq::<char>::empty() + "Total size: "@ =~= "Total size: "@);
    }
    s
}

/// The second summary line the scan prints.
pub fn largest_line(largest: u64) -> (s: String)
    ensures
        s@ == "Largest child: "@ + nice_rep(largest),
{
    let mut s = String::new();
    s.append("Largest child: ");
    s.append(bytes_to_nice(largest).as_str());
    proof {
        assert(Seq::<char>::empty() + "Largest child: "@ =~= "Largest child: "@);
    }
    s
}

} // verus!
