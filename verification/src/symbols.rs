//! The conversion table between Roman numeral symbols and their values, and
//! the greedy rule that writes a number as Roman numerals.
use vstd::prelude::*;

verus! {

/// Number of entries in the symbol table.
pub const SYMBOL_COUNT: usize = 13;

/// Value of the symbol at index `i` of the table, which is ordered from the
/// largest value down.
pub open spec fn symbol_value(i: int) -> nat {
    if i == 0 {
        1000
    } else if i == 1 {
        900
    } else if i == 2 {
        500
    } else if i == 3 {
        400
    } else if i == 4 {
        100
    } else if i == 5 {
        90
    } else if i == 6 {
        50
    } else if i == 7 {
        40
    } else if i == 8 {
        10
    } else if i == 9 {
        9
    } else if i == 10 {
        5
    } else if i == 11 {
        4
    } else {
        1
    }
}

/// Characters of the symbol at index `i` of the table.
pub open spec fn symbol_chars(i: int) -> Seq<char> {
    if i == 0 {
        seq!['M']
    } else if i == 1 {
        seq!['C', 'M']
    } else if i == 2 {
        seq!['D']
    } else if i == 3 {
        seq!['C', 'D']
    } else if i == 4 {
        seq!['C']
    } else if i == 5 {
        seq!['X', 'C']
    } else if i == 6 {
        seq!['L']
    } else if i == 7 {
        seq!['X', 'L']
    } else if i == 8 {
        seq!['X']
    } else if i == 9 {
        seq!['I', 'X']
    } else if i == 10 {
        seq!['V']
    } else if i == 11 {
        seq!['I', 'V']
    } else {
        seq!['I']
    }
}

/// Index of the first table entry, at or after `i`, whose value is at most `n`
/// (`SYMBOL_COUNT` when there is none).
pub open spec fn first_fitting_from(n: int, i: int) -> int
    decreases SYMBOL_COUNT - i,
{
    if i >= SYMBOL_COUNT {
        SYMBOL_COUNT as int
    } else if symbol_value(i) <= n {
        i
    } else {
        first_fitting_from(n, i + 1)
    }
}

/// Index of the largest symbol whose value is at most `n`.
pub open spec fn greedy_index(n: int) -> int {
    first_fitting_from(n, 0)
}

/// The Roman numeral of `n`: the largest symbol that fits, then the numeral of
/// what is left.
pub open spec fn to_roman(n: nat) -> Seq<char>
    decreases n,
{
    if n == 0 {
        Seq::empty()
    } else {
        let g = greedy_index(n as int);
        proof {
            lemma_greedy_index(n as int);
        }
        symbol_chars(g) + to_roman((n - symbol_value(g)) as nat)
    }
}

/// The greedy index of a positive number names a table entry that fits it,
/// and every entry before it is too large.
pub proof fn lemma_greedy_index(n: int)
    requires
        n >= 1,
    ensures
        0 <= greedy_index(n) < SYMBOL_COUNT,
        1 <= symbol_value(greedy_index(n)) <= n,
        forall|j: int| 0 <= j < greedy_index(n) ==> symbol_value(j) > n,
{
    reveal_with_fuel(first_fitting_from, 14);
}

/// Returns the value and the text of the symbol at index `i` of the table.
pub fn symbol_at(i: usize) -> (entry: (u16, &'static str))
    requires
        i < SYMBOL_COUNT,
    ensures
        entry.0 == symbol_value(i as int),
        entry.1@ == symbol_chars(i as int),
{
    match i {
        0 => {
            proof {
                reveal_strlit("M");
            }
            (1000, "M")
        },
        1 => {
            proof {
                reveal_strlit("CM");
            }
            (900, "CM")
        },
        2 => {
            proof {
                reveal_strlit("D");
            }
            (500, "D")
        },
        3 => {
            proof {
                reveal_strlit("CD");
            }
            (400, "CD")
        },
        4 => {
            proof {
                reveal_strlit("C");
            }
            (100, "C")
        },
        5 => {
            proof {
                reveal_strlit("XC");
            }
            (90, "XC")
        },
        6 => {
            proof {
                reveal_strlit("L");
            }
            (50, "L")
        },
        7 => {
            proof {
                reveal_strlit("XL");
            }
            (40, "XL")
        },
        8 => {
            proof {
                reveal_strlit("X");
            }
            (10, "X")
        },
        9 => {
            proof {
                reveal_strlit("IX");
            }
            (9, "IX")
        },
        10 => {
            proof {
                reveal_strlit("V");
            }
            (5, "V")
        },
        11 => {
            proof {
                reveal_strlit("IV");
            }
            (4, "IV")
        },
        _ => {
            proof {
                reveal_strlit("I");
            }
            (1, "I")
        },
    }
}

/// Returns the largest symbol of the table whose value is at most `n`.
///
/// Every `n` from 1 up has one, since the table ends with `I` (1); `n == 0`
/// has none and is left out.
pub fn next_symbol(n: u16) -> (entry: (u16, &'static str))
    requires
        n >= 1,
    ensures
        entry.0 == symbol_value(greedy_index(n as int)),
        entry.1@ == symbol_chars(greedy_index(n as int)),
        1 <= entry.0 <= n,
{
    proof {
        lemma_greedy_index(n as int);
    }
    let mut i: usize = 0;
    while i < SYMBOL_COUNT
        invariant
            0 <= i <= greedy_index(n as int),
            0 <= greedy_index(n as int) < SYMBOL_COUNT,
            first_fitting_from(n as int, i as int) == greedy_index(n as int),
            symbol_value(greedy_index(n as int)) <= n,
            forall|j: int| 0 <= j < greedy_index(n as int) ==> symbol_value(j) > n,
        decreases SYMBOL_COUNT - i,
    {
        let entry = symbol_at(i);
        if n >= entry.0 {
            return entry;
        }
        i = i + 1;
    }
    proof {
        reveal_with_fuel(first_fitting_from, 2);
    }
    symbol_at(SYMBOL_COUNT - 1)
}

} // verus!
