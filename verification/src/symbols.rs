//! Records produced by an external address symbolizer, and the parsing
//! of the hexadecimal addresses they carry.

use vstd::prelude::*;

verus! {

/// One resolved source location of an address.
#[derive(Debug, Clone)]
pub struct Symbol {
    pub column: u32,
    pub discriminator: u32,
    pub file_name: String,
    pub function_name: String,
    pub line: u32,
    pub start_address: String,
    pub start_file_name: String,
    pub start_line: u32,
}

/// One symbolizer answer: a `0x`-prefixed hexadecimal address, the module
/// it falls in, and the symbols resolved for it.
#[derive(Debug, Clone)]
pub struct LlvmSymbolizerItem {
    pub address: String,
    pub module_name: String,
    pub symbol: Vec<Symbol>,
}

/// The value of one hexadecimal digit, or a negative marker for any
/// other character.
pub open spec fn hex_digit_val(c: char) -> int {
    if '0' <= c && c <= '9' {
        c as int - '0' as int
    } else if 'a' <= c && c <= 'f' {
        c as int - 'a' as int + 10
    } else if 'A' <= c && c <= 'F' {
        c as int - 'A' as int + 10
    } else {
        -1
    }
}

/// Whether the character is a hexadecimal digit.
pub open spec fn is_hex_digit(c: char) -> bool {
    hex_digit_val(c) >= 0
}

/// The value of a big-endian sequence of hexadecimal digits.
pub open spec fn hex_value(s: Seq<char>) -> int
    decreases s.len(),
{
    if s.len() == 0 {
        0
    } else {
        hex_value(s.drop_last()) * 16 + hex_digit_val(s.last())
    }
}

/// A parsable address: `0x`, then at least one hexadecimal digit, with a
/// value that fits a 64-bit word.
pub open spec fn valid_hex_addr(s: Seq<char>) -> bool {
    &&& s.len() >= 3
    &&& s[0] == '0'
    &&& s[1] == 'x'
    &&& forall|i: int| 2 <= i < s.len() ==> is_hex_digit(#[trigger] s[i])
    &&& hex_value(s.skip(2)) <= u64::MAX
}

/// A sequence of hexadecimal digits has a non-negative value.
pub proof fn lemma_hex_value_nonneg(s: Seq<char>)
    requires
        forall|i: int| 0 <= i < s.len() ==> is_hex_digit(#[trigger] s[i]),
    ensures
        hex_value(s) >= 0,
    decreases s.len(),
{
    if s.len() > 0 {
        assert forall|i: int| 0 <= i < s.drop_last().len() implies is_hex_digit(
            #[trigger] s.drop_last()[i],
        ) by {
            assert(s.drop_last()[i] == s[i]);
        }
        lemma_hex_value_nonneg(s.drop_last());
        assert(is_hex_digit(s[s.len() - 1]));
    }
}

/// Extending a sequence of hexadecimal digits never lowers its value.
pub proof fn lemma_hex_value_extends(s: Seq<char>, j: int)
    requires
        0 <= j <= s.len(),
        forall|i: int| 0 <= i < s.len() ==> is_hex_digit(#[trigger] s[i]),
    ensures
        hex_value(s.take(j)) <= hex_value(s),
    decreases s.len() - j,
{
    if j == s.len() {
        assert(s.take(j) =~= s);
    } else {
        lemma_hex_value_extends(s, j + 1);
        let t = s.take(j + 1);
        assert(t.drop_last() =~= s.take(j));
        assert(t.last() == s[j]);
        assert forall|i: int| 0 <= i < s.take(j).len() implies is_hex_digit(
            #[trigger] s.take(j)[i],
        ) by {
            assert(s.take(j)[i] == s[i]);
        }
        lemma_hex_value_nonneg(s.take(j));
        assert(is_hex_digit(s[j]));
        assert(hex_value(t) == hex_value(s.take(j)) * 16 + hex_digit_val(s[j]));
        assert(hex_value(s.take(j)) * 16 >= hex_value(s.take(j))) by (nonlinear_arith)
            requires
                hex_value(s.take(j)) >= 0,
        ;
    }
}

/// Parses a `0x`-prefixed hexadecimal address.  Returns `None` exactly
/// when the text is not such an address or its value does not fit a
/// 64-bit word.
pub fn parse_hex_addr(s: &str) -> (r: Option<u64>)
    ensures
        match r {
            Some(v) => valid_hex_addr(s@) && v == hex_value(s@.skip(2)),
            None => !valid_hex_addr(s@),
        },
{
    let n = s.unicode_len();
    if n < 3 {
        return None;
    }
    if s.get_char(0) != '0' || s.get_char(1) != 'x' {
        return None;
    }
    let ghost digits = s@.skip(2);
    let mut acc: u64 = 0;
    let mut i: usize = 2;
    while i < n
        invariant
            2 <= i <= n,
            n == s@.len(),
            digits == s@.skip(2),
            digits.len() == n - 2,
            forall|j: int| 2 <= j < i ==> is_hex_digit(#[trigger] s@[j]),
            forall|j: int| 0 <= j < i - 2 ==> #[trigger] digits[j] == s@[j + 2],
            acc == hex_value(digits.take(i - 2)),
        decreases n - i,
    {
        let c = s.get_char(i);
        let cu = c as u32;
        let d: u32 = if cu >= 48 && cu <= 57 {
            cu - 48
        } else if cu >= 97 && cu <= 102 {
            cu - 97 + 10
        } else if cu >= 65 && cu <= 70 {
            cu - 65 + 10
        } else {
            proof {
                assert(!is_hex_digit(s@[i as int]));
            }
            return None;
        };
        proof {
            assert(is_hex_digit(s@[i as int]) && hex_digit_val(s@[i as int]) == d as int);
        }
        if acc > (u64::MAX - (d as u64)) / 16 {
            proof {
                let full = i + 1 - 2;
                assert(digits.take(full).drop_last() =~= digits.take(i - 2));
                assert(digits.take(full).last() == digits[i - 2]);
                assert(hex_value(digits.take(full)) == acc * 16 + d);
                assert(acc * 16 + d > u64::MAX) by (nonlinear_arith)
                    requires
                        acc > (u64::MAX - (d as u64)) / 16,
                        0 <= d < 16,
                ;
                if valid_hex_addr(s@) {
                    assert forall|j: int| 0 <= j < digits.len() implies is_hex_digit(
                        #[trigger] digits[j],
                    ) by {
                        assert(digits[j] == s@[j + 2]);
                    }
                    lemma_hex_value_extends(digits, full);
                }
            }
            return None;
        }
        proof {
            assert(acc * 16 + d <= u64::MAX) by (nonlinear_arith)
                requires
                    acc <= (u64::MAX - (d as u64)) / 16,
                    0 <= d < 16,
            ;
            let full = i + 1 - 2;
            assert(digits.take(full).drop_last() =~= digits.take(i - 2));
            assert(digits.take(full).last() == digits[i - 2]);
        }
        acc = acc * 16 + (d as u64);
        i = i + 1;
    }
    proof {
        assert(digits.take(n - 2) =~= digits);
    }
    Some(acc)
}

impl LlvmSymbolizerItem {
    /// The numeric value of this item's address.  The caller vouches
    /// that the symbolizer produced a well-formed `0x`-prefixed address.
    pub fn address_(&self) -> (r: u64)
        requires
            valid_hex_addr(self.address@),
        ensures
            r == hex_value(self.address@.skip(2)),
    {
        match parse_hex_addr(self.address.as_str()) {
            Some(v) => v,
            None => {
                proof {
                    assert(false);
                }
                0
            },
        }
    }
}

} // verus!
