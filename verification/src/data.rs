//! CIDR block values and their canonical textual form.
//!
//! [`V4`] and [`V6`] hold a block as address bits plus prefix length.
//! The text a block prints as is pinned down by the spec functions
//! [`v4_text`] and [`v6_text`]; `to_string` renders exactly that text,
//! masking the bits below the prefix before printing.

use vstd::prelude::*;
use vstd::arithmetic::power2::pow2;
use vstd::bits::lemma_u128_shr_is_div;
use vstd::string::StringExecFns;
use crate::bitstring::{pow2_u128, lemma_pow2_le};

verus! {

/// An IPv4 CIDR block: 32 address bits and a prefix length `0..=32`.
#[derive(Debug, Eq, PartialEq)]
pub struct V4(pub u32, pub u8);

/// An IPv6 CIDR block: 128 address bits and a prefix length `0..=128`.
#[derive(Debug, Eq, PartialEq)]
pub struct V6(pub u128, pub u8);

/// One digit as a character, decimal or lowercase hexadecimal.
pub open spec fn digit_char(d: nat) -> char {
    if d == 0 {
        '0'
    } else if d == 1 {
        '1'
    } else if d == 2 {
        '2'
    } else if d == 3 {
        '3'
    } else if d == 4 {
        '4'
    } else if d == 5 {
        '5'
    } else if d == 6 {
        '6'
    } else if d == 7 {
        '7'
    } else if d == 8 {
        '8'
    } else if d == 9 {
        '9'
    } else if d == 10 {
        'a'
    } else if d == 11 {
        'b'
    } else if d == 12 {
        'c'
    } else if d == 13 {
        'd'
    } else if d == 14 {
        'e'
    } else {
        'f'
    }
}

/// Decimal text of a number, no leading zeros.
pub open spec fn dec_rep(n: nat) -> Seq<char>
    decreases n,
{
    if n < 10 {
        seq![digit_char(n)]
    } else {
        dec_rep(n / 10).push(digit_char(n % 10))
    }
}

/// Lowercase hexadecimal text of a number, no leading zeros.
pub open spec fn hex_rep(n: nat) -> Seq<char>
    decreases n,
{
    if n < 16 {
        seq![digit_char(n)]
    } else {
        hex_rep(n / 16).push(digit_char(n % 16))
    }
}

/// The address with the bits below the prefix cleared.
pub open spec fn masked(addr: nat, len: nat, w: nat) -> nat {
    (addr - (addr % pow2((w - len) as nat))) as nat
}

/// Canonical text of a v4 block: masked dotted-quad, slash, length.
pub open spec fn v4_text(addr: nat, len: nat) -> Seq<char> {
    if len == 0 {
        "0.0.0.0/0"@
    } else {
        let m = masked(addr, len, 32);
        dec_rep(m / 0x1000000) + "."@ + dec_rep((m / 0x10000) % 256) + "."@ + dec_rep(
            (m / 0x100) % 256,
        ) + "."@ + dec_rep(m % 256) + "/"@ + dec_rep(len)
    }
}

/// Group `j` (0 is the most significant) of a 128-bit address.
pub open spec fn v6_group(m: nat, j: int) -> nat {
    (m / pow2((16 * (7 - j)) as nat)) % 0x10000
}

/// Length of the run of all-zero groups that ends at group `i`.
pub open spec fn zrun_end(m: nat, i: int) -> nat
    decreases i,
{
    if i < 0 {
        0
    } else if v6_group(m, i) != 0 {
        0
    } else if i == 0 {
        1
    } else {
        zrun_end(m, i - 1) + 1
    }
}

/// The longest zero-group run among those ending at or before `i`, as
/// `(length, end index)`; on a tie the earlier run wins.
pub open spec fn best_run(m: nat, i: int) -> (nat, int)
    decreases i,
{
    if i <= 0 {
        (zrun_end(m, 0), 0int)
    } else {
        let p = best_run(m, i - 1);
        let c = zrun_end(m, i);
        if c > p.0 {
            (c, i)
        } else {
            p
        }
    }
}

/// Groups `lo..hi` in hexadecimal, joined by `:`.
pub open spec fn hex_groups_text(m: nat, lo: int, hi: int) -> Seq<char>
    decreases hi - lo,
{
    if hi - lo <= 0 {
        Seq::empty()
    } else if hi - lo == 1 {
        hex_rep(v6_group(m, lo))
    } else {
        hex_groups_text(m, lo, hi - 1) + ":"@ + hex_rep(v6_group(m, hi - 1))
    }
}

/// Canonical text of a v6 block: masked groups with the longest zero
/// run (earliest on ties) compressed to `::`, slash, length.
pub open spec fn v6_text(addr: nat, len: nat) -> Seq<char> {
    if len == 0 {
        "::/0"@
    } else {
        let m = masked(addr, len, 128);
        let best = best_run(m, 7);
        if best.0 == 0 {
            hex_groups_text(m, 0, 8) + "/"@ + dec_rep(len)
        } else {
            let start = best.1 + 1 - best.0;
            hex_groups_text(m, 0, start) + "::"@ + hex_groups_text(m, best.1 + 1, 8) + "/"@
                + dec_rep(len)
        }
    }
}

/// Append one digit's character.
fn push_digit(s: &mut String, d: u128)
    requires
        d < 16,
    ensures
        final(s)@ == old(s)@ + seq![digit_char(d as nat)],
{
    let c: &'static str = if d == 0 {
        "0"
    } else if d == 1 {
        "1"
    } else if d == 2 {
        "2"
    } else if d == 3 {
        "3"
    } else if d == 4 {
        "4"
    } else if d == 5 {
        "5"
    } else if d == 6 {
        "6"
    } else if d == 7 {
        "7"
    } else if d == 8 {
        "8"
    } else if d == 9 {
        "9"
    } else if d == 10 {
        "a"
    } else if d == 11 {
        "b"
    } else if d == 12 {
        "c"
    } else if d == 13 {
        "d"
    } else if d == 14 {
        "e"
    } else {
        "f"
    };
    proof {
        reveal_strlit("0");
        reveal_strlit("1");
        reveal_strlit("2");
        reveal_strlit("3");
        reveal_strlit("4");
        reveal_strlit("5");
        reveal_strlit("6");
        reveal_strlit("7");
        reveal_strlit("8");
        reveal_strlit("9");
        reveal_strlit("a");
        reveal_strlit("b");
        reveal_strlit("c");
        reveal_strlit("d");
        reveal_strlit("e");
        reveal_strlit("f");
        assert(c@ =~= seq![digit_char(d as nat)]);
    }
    s.append(c);
}

/// Append a number in decimal.
fn append_dec(s: &mut String, n: u128)
    ensures
        final(s)@ == old(s)@ + dec_rep(n as nat),
    decreases n,
{
    if n < 10 {
        push_digit(s, n);
    } else {
        append_dec(s, n / 10);
        push_digit(s, n % 10);
        proof {
            assert(old(s)@ + dec_rep((n / 10) as nat) + seq![digit_char((n % 10) as nat)] =~= old(
                s,
            )@ + dec_rep(n as nat));
        }
    }
}

/// Append a number in lowercase hexadecimal.
fn append_hex(s: &mut String, n: u128)
    ensures
        final(s)@ == old(s)@ + hex_rep(n as nat),
    decreases n,
{
    if n < 16 {
        push_digit(s, n);
    } else {
        append_hex(s, n / 16);
        push_digit(s, n % 16);
        proof {
            assert(old(s)@ + hex_rep((n / 16) as nat) + seq![digit_char((n % 16) as nat)] =~= old(
                s,
            )@ + hex_rep(n as nat));
        }
    }
}

impl V4 {
    /// Render the block canonically, masking the bits below the prefix.
    pub fn to_string(&self) -> (res: String)
        requires
            self.1 <= 32,
        ensures
            res@ == v4_text(self.0 as nat, self.1 as nat),
    {
        if self.1 == 0 {
            return "0.0.0.0/0".to_owned();
        }
        let sh: usize = 32 - (self.1 as usize);
        let p128 = pow2_u128(sh);
        proof {
            lemma_pow2_le(sh as nat, 31);
            vstd::arithmetic::power2::lemma2_to64();
            vstd::arithmetic::power2::lemma_pow2_pos(sh as nat);
        }
        let p: u32 = p128 as u32;
        proof {
            assert(self.0 % p <= self.0) by (nonlinear_arith)
                requires
                    p > 0,
            ;
        }
        let m: u32 = self.0 - (self.0 % p);
        let ghost mn = masked(self.0 as nat, self.1 as nat, 32);
        proof {
            assert(m == mn);
        }
        let mut s = String::new();
        append_dec(&mut s, (m / 0x1000000) as u128);
        s.append(".");
        append_dec(&mut s, ((m / 0x10000) % 256) as u128);
        s.append(".");
        append_dec(&mut s, ((m / 0x100) % 256) as u128);
        s.append(".");
        append_dec(&mut s, (m % 256) as u128);
        s.append("/");
        append_dec(&mut s, self.1 as u128);
        proof {
            assert(s@ =~= v4_text(self.0 as nat, self.1 as nat));
        }
        s
    }
}

/// Append groups `lo..hi` of `m`, joined by `:`.
fn append_groups(s: &mut String, groups: &Vec<u128>, lo: usize, hi: usize, Ghost(m): Ghost<nat>)
    requires
        groups@.len() == 8,
        lo <= hi <= 8,
        forall|j: int| 0 <= j < 8 ==> groups@[j] == v6_group(m, j),
    ensures
        final(s)@ == old(s)@ + hex_groups_text(m, lo as int, hi as int),
{
    if lo >= hi {
        proof {
            assert(old(s)@ + hex_groups_text(m, lo as int, hi as int) =~= old(s)@);
        }
        return ;
    }
    append_hex(s, groups[lo]);
    let mut i: usize = lo + 1;
    while i < hi
        invariant
            groups@.len() == 8,
            lo < i <= hi <= 8,
            forall|j: int| 0 <= j < 8 ==> groups@[j] == v6_group(m, j),
            s@ == old(s)@ + hex_groups_text(m, lo as int, i as int),
        decreases hi - i,
    {
        s.append(":");
        append_hex(s, groups[i]);
        proof {
            assert(old(s)@ + hex_groups_text(m, lo as int, i as int) + ":"@ + hex_rep(
                v6_group(m, i as int),
            ) =~= old(s)@ + hex_groups_text(m, lo as int, (i + 1) as int));
        }
        i = i + 1;
    }
}

impl V6 {
    /// Render the block canonically: mask below the prefix, then compress
    /// the longest (earliest on ties) run of zero groups to `::`.
    pub fn to_string(&self) -> (res: String)
        requires
            self.1 <= 128,
        ensures
            res@ == v6_text(self.0 as nat, self.1 as nat),
    {
        if self.1 == 0 {
            return "::/0".to_owned();
        }
        let sh: usize = 128 - (self.1 as usize);
        let p = pow2_u128(sh);
        proof {
            vstd::arithmetic::power2::lemma_pow2_pos(sh as nat);
        }
        proof {
            assert(self.0 % p <= self.0) by (nonlinear_arith)
                requires
                    p > 0,
            ;
        }
        let m: u128 = self.0 - (self.0 % p);
        let ghost mn = masked(self.0 as nat, self.1 as nat, 128);
        proof {
            assert(m == mn);
        }
        // Split into eight 16-bit groups, most significant first.
        let mut groups: Vec<u128> = Vec::new();
        let mut i: usize = 0;
        while i < 8
            invariant
                i <= 8,
                m == mn,
                groups@.len() == i,
                forall|j: int| 0 <= j < i ==> groups@[j] == v6_group(mn, j),
            decreases 8 - i,
        {
            let gsh: usize = 16 * (7 - i);
            let g = (m >> (gsh as u128)) % 0x10000;
            proof {
                lemma_u128_shr_is_div(m, gsh as u128);
                assert(g == v6_group(mn, i as int));
            }
            groups.push(g);
            i = i + 1;
        }
        // Find the longest zero run; the first wins a tie.
        let mut cur: usize = if groups[0] == 0 {
            1
        } else {
            0
        };
        let mut best_len: usize = cur;
        let mut best_idx: usize = 0;
        let mut i2: usize = 1;
        while i2 < 8
            invariant
                1 <= i2 <= 8,
                groups@.len() == 8,
                forall|j: int| 0 <= j < 8 ==> groups@[j] == v6_group(mn, j),
                cur == zrun_end(mn, i2 - 1),
                cur <= i2,
                best_len == best_run(mn, i2 - 1).0,
                best_idx == best_run(mn, i2 - 1).1,
                best_len <= best_idx + 1,
                best_idx < i2,
            decreases 8 - i2,
        {
            cur = if groups[i2] == 0 {
                cur + 1
            } else {
                0
            };
            if best_len < cur {
                best_len = cur;
                best_idx = i2;
            }
            i2 = i2 + 1;
        }
        let mut s = String::new();
        if best_len == 0 {
            append_groups(&mut s, &groups, 0, 8, Ghost(mn));
            s.append("/");
            append_dec(&mut s, self.1 as u128);
            proof {
                assert(s@ =~= v6_text(self.0 as nat, self.1 as nat));
            }
        } else {
            let start: usize = best_idx + 1 - best_len;
            append_groups(&mut s, &groups, 0, start, Ghost(mn));
            s.append("::");
            append_groups(&mut s, &groups, best_idx + 1, 8, Ghost(mn));
            s.append("/");
            append_dec(&mut s, self.1 as u128);
            proof {
                assert(s@ =~= v6_text(self.0 as nat, self.1 as nat));
            }
        }
        s
    }
}

} // verus!
