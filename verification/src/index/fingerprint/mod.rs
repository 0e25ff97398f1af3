//! Structural fingerprints of symbols.
//!
//! The fingerprint of a definition is the hash of the canonical form of its
//! neighbourhood: the references that touch it, with the kinds of the nodes at
//! their ends, and the definition itself set apart. Names take no part, so a
//! rename changes no fingerprint. Only references whose target is known take
//! part, each as often as it stands there.

pub mod counts;
pub mod history;
pub mod hood;
pub mod laws;
pub mod numbering;
pub mod rename;
pub mod update;

pub use crate::index::fingerprint::hood::compute_fingerprints;
pub use crate::index::fingerprint::update::{update_fingerprints, FingerprintStats};

use vstd::prelude::*;

verus! {

/// The kinds of references that fingerprints are made of.
pub const FINGERPRINT_EDGE_TYPES: [&'static str; 4] = ["calls", "member_of", "implements", "contains"];

/// The fingerprint of a symbol.
#[derive(Debug, Clone, PartialEq, Eq)]
pub struct SymbolFingerprint {
    pub qualified_name: String,
    pub file_path: String,
    /// The kinds of the nodes that have the name, joined by `+`.
    pub node_type: String,
    pub hash: u64,
    /// The number of references in the neighbourhood.
    pub edge_count: usize,
    /// The number of those that are not containment.
    pub name_edge_count: usize,
}

#[verifier::ext_equal]
pub struct SymbolView {
    pub qualified_name: Seq<char>,
    pub file_path: Seq<char>,
    pub node_type: Seq<char>,
    pub hash: u64,
    pub edge_count: usize,
    pub name_edge_count: usize,
}

impl DeepView for SymbolFingerprint {
    type V = SymbolView;

    open spec fn deep_view(&self) -> SymbolView {
        SymbolView {
            qualified_name: self.qualified_name@,
            file_path: self.file_path@,
            node_type: self.node_type@,
            hash: self.hash,
            edge_count: self.edge_count,
            name_edge_count: self.name_edge_count,
        }
    }
}

/// A hexadecimal digit.
pub open spec fn hex_digit(d: nat) -> char {
    if d < 10 {
        crate::text::digit(d)
    } else if d == 10 {
        'a'
    } else if d == 11 {
        'b'
    } else if d == 12 {
        'c'
    } else if d == 13 {
        'd'
    } else if d == 14 {
        'e'
    } else {
        'f'
    }
}

/// The last `n` hexadecimal digits of a number.
pub open spec fn hex_digits(h: nat, n: nat) -> Seq<char>
    decreases n,
{
    if n == 0 {
        Seq::empty()
    } else {
        hex_digits(h / 16, (n - 1) as nat).push(hex_digit(h % 16))
    }
}

fn digit_of(d: u64) -> (c: char)
    requires
        d < 16,
    ensures
        c == hex_digit(d as nat),
{
    if d == 0 { '0' } else if d == 1 { '1' } else if d == 2 { '2' } else if d == 3 { '3' } else if d == 4 { '4' }
    else if d == 5 { '5' } else if d == 6 { '6' } else if d == 7 { '7' } else if d == 8 { '8' } else if d == 9 { '9' }
    else if d == 10 { 'a' } else if d == 11 { 'b' } else if d == 12 { 'c' } else if d == 13 { 'd' }
    else if d == 14 { 'e' } else { 'f' }
}

fn hex_text(h: u64, n: u64) -> (s: String)
    ensures
        s@ == hex_digits(h as nat, n as nat),
    decreases n,
{
    if n == 0 {
        let s = String::new();
        assert(s@ =~= Seq::empty());
        s
    } else {
        let mut s = hex_text(h / 16, n - 1);
        s.push(digit_of(h % 16));
        s
    }
}

/// A hash as text: sixteen hexadecimal digits.
pub fn hash_to_hex(h: u64) -> (s: String)
    ensures
        s@ == hex_digits(h as nat, 16),
{
    hex_text(h, 16)
}

/// Different hashes have different texts.
pub proof fn hex_text_names_a_hash(a: u64, b: u64)
    requires
        hex_digits(a as nat, 16) == hex_digits(b as nat, 16),
    ensures
        a == b,
{
    lemma_hex_value(a as nat, 16);
    lemma_hex_value(b as nat, 16);
    assert(pow16(16) == 0x1_0000_0000_0000_0000) by {
        reveal_with_fuel(pow16, 17);
    }
    vstd::arithmetic::div_mod::lemma_small_mod(a as nat, pow16(16));
    vstd::arithmetic::div_mod::lemma_small_mod(b as nat, pow16(16));
}

spec fn pow16(n: nat) -> nat
    decreases n,
{
    if n == 0 {
        1
    } else {
        16 * pow16((n - 1) as nat)
    }
}

spec fn digit_value(c: char) -> nat {
    if c == '0' { 0 } else if c == '1' { 1 } else if c == '2' { 2 } else if c == '3' { 3 } else if c == '4' { 4 }
    else if c == '5' { 5 } else if c == '6' { 6 } else if c == '7' { 7 } else if c == '8' { 8 } else if c == '9' { 9 }
    else if c == 'a' { 10 } else if c == 'b' { 11 } else if c == 'c' { 12 } else if c == 'd' { 13 }
    else if c == 'e' { 14 } else { 15 }
}

spec fn hex_value(s: Seq<char>) -> nat
    decreases s.len(),
{
    if s.len() == 0 {
        0
    } else {
        16 * hex_value(s.drop_last()) + digit_value(s.last())
    }
}

proof fn lemma_hex_value(h: nat, n: nat)
    ensures
        hex_value(hex_digits(h, n)) == h % pow16(n),
    decreases n,
{
    if n == 0 {
        assert(h % 1 == 0);
    } else {
        let m = (n - 1) as nat;
        lemma_hex_value(h / 16, m);
        let s = hex_digits(h, n);
        assert(s.drop_last() =~= hex_digits(h / 16, m));
        assert(digit_value(hex_digit(h % 16)) == h % 16);
        lemma_pow16_positive(m);
        let p = pow16(m);
        assert(h % (16 * p) == 16 * ((h / 16) % p) + h % 16) by {
            vstd::arithmetic::div_mod::lemma_mod_breakdown(h as int, 16, p as int);
        }
    }
}

proof fn lemma_pow16_positive(n: nat)
    ensures
        pow16(n) > 0,
    decreases n,
{
    if n > 0 {
        lemma_pow16_positive((n - 1) as nat);
    }
}

} // verus!
