//! The literal keyboard layout tables, as construction data for `KeyLayout`.
//!
//! Each table exists twice in the same shape: once as a spec-level sequence
//! that contracts can speak of, and once as the executable value the layout
//! is built from; the constructors prove the two equal.

use vstd::prelude::*;

use crate::key_layout::KeyIndex;
use crate::key_layout::KeyLayout;
use crate::key_layout::index_map;
use crate::key_layout::matrix_pairs;

verus! {

/// The standard European desktop table: four rows of keys, each key listing
/// its characters by shift level.
pub open spec fn qwertz_table() -> Seq<Seq<Seq<char>>> {
    seq![
        seq![
            seq!['^'],
            seq!['1', '!'],
            seq!['2', '"'],
            seq!['3', '\u{a7}'],
            seq!['4', '$'],
            seq!['5', '%'],
            seq!['6', '&'],
            seq!['7', '/'],
            seq!['8', '('],
            seq!['9', ')'],
            seq!['0', '='],
            seq!['\u{df}', '?'],
            seq!['`'],
        ],
        seq![
            Seq::<char>::empty(),
            seq!['q', 'Q', '@'],
            seq!['w', 'W'],
            seq!['e', 'E', '\u{20ac}'],
            seq!['r', 'R'],
            seq!['t', 'T'],
            seq!['z', 'Z'],
            seq!['u', 'U'],
            seq!['i', 'I'],
            seq!['o', 'O'],
            seq!['p', 'P'],
            seq!['\u{fc}', '\u{dc}'],
            seq!['+', '*', '~'],
        ],
        seq![
            Seq::<char>::empty(),
            seq!['a', 'A'],
            seq!['s', 'S'],
            seq!['d', 'D'],
            seq!['f', 'F'],
            seq!['g', 'G'],
            seq!['h', 'H'],
            seq!['j', 'J'],
            seq!['k', 'K'],
            seq!['l', 'L'],
            seq!['\u{f6}', '\u{d6}'],
            seq!['\u{e4}', '\u{c4}'],
            seq!['#', '\''],
        ],
        seq![
            seq!['<', '>', '|'],
            seq!['y', 'Y'],
            seq!['x', 'X'],
            seq!['c', 'C'],
            seq!['v', 'V'],
            seq!['b', 'B'],
            seq!['n', 'N'],
            seq!['m', 'M'],
            seq![',', ';'],
            seq!['.', ':'],
            seq!['-', '_'],
        ],
    ]
}

/// The character index of the standard desktop table.
pub open spec fn qwertz_key_map() -> Map<char, KeyIndex> {
    index_map(matrix_pairs(qwertz_table()))
}

/// The extended mobile-input table: the same letters with digits and
/// punctuation folded onto deeper shift levels.
pub open spec fn qwertz_anysoft_extra_table() -> Seq<Seq<Seq<char>>> {
    seq![
        seq![
            seq!['1', '!'],
            seq!['2', '@'],
            seq!['3', '#'],
            seq!['4', '$', ';'],
            seq!['5', '%', ':'],
            seq!['6', '^'],
            seq!['7', '&'],
            seq!['8', '*'],
            seq!['9', '(', '[', '{', '/'],
            seq!['0', ')', ']', '}', '-', '=', '_', '+', '\u{b0}'],
        ],
        seq![
            seq!['q', 'Q', '@'],
            seq!['w', 'W'],
            seq!['e', 'E', '\u{20ac}'],
            seq!['r', 'R'],
            seq!['t', 'T'],
            seq!['z', 'Z'],
            seq!['u', 'U', '\u{fc}'],
            seq!['i', 'I'],
            seq!['o', 'O', '\u{f6}'],
            seq!['p', 'P'],
        ],
        seq![
            seq!['a', 'A'],
            seq!['s', 'S', '\u{df}'],
            seq!['d', 'D'],
            seq!['f', 'F'],
            seq!['g', 'G'],
            seq!['h', 'H'],
            seq!['j', 'J'],
            seq!['k', 'K'],
            seq!['l', 'L'],
        ],
        seq![
            seq![',', ':', ';', '-', '\''],
            seq!['y', 'Y'],
            seq!['x', 'X'],
            seq!['c', 'C'],
            seq!['v', 'V'],
            seq!['b', 'B'],
            seq!['n', 'N'],
            seq!['m', 'M'],
            seq!['.', '!', '?'],
        ],
    ]
}

/// The character index of the extended mobile-input table.
pub open spec fn qwertz_anysoft_extra_key_map() -> Map<char, KeyIndex> {
    index_map(matrix_pairs(qwertz_anysoft_extra_table()))
}

/// The standard European desktop layout, built from its literal table.
pub fn qwertz() -> (r: KeyLayout)
    ensures
        r.key_map() == qwertz_key_map(),
{
    let matrix: Vec<Vec<Vec<char>>> =
        vec![
            vec![
                vec!['^'],
                vec!['1', '!'],
                vec!['2', '"'],
                vec!['3', '\u{a7}'],
                vec!['4', '$'],
                vec!['5', '%'],
                vec!['6', '&'],
                vec!['7', '/'],
                vec!['8', '('],
                vec!['9', ')'],
                vec!['0', '='],
                vec!['\u{df}', '?'],
                vec!['`'],
            ],
            vec![
                vec![],
                vec!['q', 'Q', '@'],
                vec!['w', 'W'],
                vec!['e', 'E', '\u{20ac}'],
                vec!['r', 'R'],
                vec!['t', 'T'],
                vec!['z', 'Z'],
                vec!['u', 'U'],
                vec!['i', 'I'],
                vec!['o', 'O'],
                vec!['p', 'P'],
                vec!['\u{fc}', '\u{dc}'],
                vec!['+', '*', '~'],
            ],
            vec![
                vec![],
                vec!['a', 'A'],
                vec!['s', 'S'],
                vec!['d', 'D'],
                vec!['f', 'F'],
                vec!['g', 'G'],
                vec!['h', 'H'],
                vec!['j', 'J'],
                vec!['k', 'K'],
                vec!['l', 'L'],
                vec!['\u{f6}', '\u{d6}'],
                vec!['\u{e4}', '\u{c4}'],
                vec!['#', '\''],
            ],
            vec![
                vec!['<', '>', '|'],
                vec!['y', 'Y'],
                vec!['x', 'X'],
                vec!['c', 'C'],
                vec!['v', 'V'],
                vec!['b', 'B'],
                vec!['n', 'N'],
                vec!['m', 'M'],
                vec![',', ';'],
                vec!['.', ':'],
                vec!['-', '_'],
            ],
        ];
    proof {
        assert(matrix.deep_view() =~~= qwertz_table());
    }
    KeyLayout::new(matrix)
}

/// The extended mobile-input layout, built from its literal table.
pub fn qwertz_anysoft_extra() -> (r: KeyLayout)
    ensures
        r.key_map() == qwertz_anysoft_extra_key_map(),
{
    let matrix: Vec<Vec<Vec<char>>> =
        vec![
            vec![
                vec!['1', '!'],
                vec!['2', '@'],
                vec!['3', '#'],
                vec!['4', '$', ';'],
                vec!['5', '%', ':'],
                vec!['6', '^'],
                vec!['7', '&'],
                vec!['8', '*'],
                vec!['9', '(', '[', '{', '/'],
                vec!['0', ')', ']', '}', '-', '=', '_', '+', '\u{b0}'],
            ],
            vec![
                vec!['q', 'Q', '@'],
                vec!['w', 'W'],
                vec!['e', 'E', '\u{20ac}'],
                vec!['r', 'R'],
                vec!['t', 'T'],
                vec!['z', 'Z'],
                vec!['u', 'U', '\u{fc}'],
                vec!['i', 'I'],
                vec!['o', 'O', '\u{f6}'],
                vec!['p', 'P'],
            ],
            vec![
                vec!['a', 'A'],
                vec!['s', 'S', '\u{df}'],
                vec!['d', 'D'],
                vec!['f', 'F'],
                vec!['g', 'G'],
                vec!['h', 'H'],
                vec!['j', 'J'],
                vec!['k', 'K'],
                vec!['l', 'L'],
            ],
            vec![
                vec![',', ':', ';', '-', '\''],
                vec!['y', 'Y'],
                vec!['x', 'X'],
                vec!['c', 'C'],
                vec!['v', 'V'],
                vec!['b', 'B'],
                vec!['n', 'N'],
                vec!['m', 'M'],
                vec!['.', '!', '?'],
            ],
        ];
    proof {
        assert(matrix.deep_view() =~~= qwertz_anysoft_extra_table());
    }
    KeyLayout::new(matrix)
}

} // verus!
