//! Rotors (wheels) and the catalog of historical wirings.
//!
//! A wheel carries a substitution permutation over the alphabet, a rotational
//! offset (`step`), the notch letters that make the next wheel advance, and a
//! flag marking fixed wheels such as reflectors.  The catalog is the immutable
//! registry of historically named wirings; `by_name` is the only way in.

use vstd::prelude::*;
use vstd::string::StrSliceExecFns;

use crate::errors::EnigmaError;
use crate::letters::{chr_of, chr_spec, is_letter, pos_of, pos_spec, str_contains_char, str_eq};

verus! {

/// The mathematical content of a wheel: its view.
#[verifier::ext_equal]
pub ghost struct WheelV {
    pub name: Seq<char>,
    pub wiring: Seq<char>,
    pub notch: Seq<char>,
    pub step: int,
    pub fixed: bool,
}

/// A wiring is a permutation of the alphabet: 26 letters, no two alike,
/// every letter present.
pub open spec fn wiring_ok(w: Seq<char>) -> bool {
    &&& w.len() == 26
    &&& forall|i: int| 0 <= i < 26 ==> is_letter(#[trigger] w[i])
    &&& forall|i: int, j: int| 0 <= i < 26 && 0 <= j < 26 && i != j ==> w[i] != w[j]
    &&& forall|c: char| is_letter(c) ==> #[trigger] w.contains(c)
}

/// Notch letters must come from the alphabet.
pub open spec fn notch_ok(n: Seq<char>) -> bool {
    forall|i: int| 0 <= i < n.len() ==> is_letter(#[trigger] n[i])
}

/// Sum of two alphabet positions, wrapped back into the alphabet.
pub open spec fn wrap_add(p: int, s: int) -> int {
    if p + s < 26 {
        p + s
    } else {
        p + s - 26
    }
}

/// Difference of two alphabet positions, wrapped back into the alphabet.
pub open spec fn wrap_sub(p: int, s: int) -> int {
    if p - s < 0 {
        p - s + 26
    } else {
        p - s
    }
}

impl WheelV {
    /// Well-formedness: a permutation wiring, an offset inside the alphabet,
    /// notches that are letters.
    pub open spec fn wf(self) -> bool {
        &&& wiring_ok(self.wiring)
        &&& notch_ok(self.notch)
        &&& 0 <= self.step < 26
    }

    /// Whether the wheel's current offset sits on one of its notch letters.
    pub open spec fn on_notch(self) -> bool {
        self.notch.contains(chr_spec(self.step))
    }
}

/// The wheel-side transform on the way from the keyboard toward the
/// reflector: the offset shifts which wiring contact lines up.
pub open spec fn send_right_spec(w: WheelV, c: char) -> char {
    w.wiring[wrap_add(pos_spec(c), w.step)]
}

/// The inverse transform on the way back from the reflector: find the letter
/// inside the wiring and undo the same offset shift.
pub open spec fn send_left_spec(w: WheelV, c: char) -> char {
    chr_spec(wrap_sub(w.wiring.index_of(c), w.step))
}

/// In a permutation wiring an element determines its index.
pub proof fn lemma_index_of_unique(w: Seq<char>, c: char, i: int)
    requires
        wiring_ok(w),
        0 <= i < 26,
        w[i] == c,
    ensures
        w.index_of(c) == i,
{
    assert(w.contains(c));
    let j = w.index_of(c);
    assert(0 <= j < w.len() && w[j] == c);
}

/// The index of a letter in a permutation wiring is an alphabet position.
pub proof fn lemma_index_of_in_range(w: Seq<char>, c: char)
    requires
        wiring_ok(w),
        is_letter(c),
    ensures
        0 <= w.index_of(c) < 26,
        w[w.index_of(c)] == c,
{
    assert(w.contains(c));
    let j = w.index_of(c);
    assert(0 <= j < w.len() && w[j] == c);
}

/// One configurable rotor slot: a catalog wiring together with its current
/// rotational offset.
#[derive(Debug)]
pub struct Wheel {
    pub name: String,
    pub wiring: String,
    pub step: usize,
    pub notch: String,
    pub fixed: bool,
}

impl View for Wheel {
    type V = WheelV;

    open spec fn view(&self) -> WheelV {
        WheelV {
            name: self.name@,
            wiring: self.wiring@,
            notch: self.notch@,
            step: self.step as int,
            fixed: self.fixed,
        }
    }
}

/// Whether the catalog holds a wheel of this name.
pub open spec fn catalog_has(name: Seq<char>) -> bool {
    ||| name == "IC"@
    ||| name == "IIC"@
    ||| name == "IIIC"@
    ||| name == "I"@
    ||| name == "II"@
    ||| name == "III"@
    ||| name == "IV"@
    ||| name == "V"@
    ||| name == "VI"@
    ||| name == "VII"@
    ||| name == "VIII"@
    ||| name == "Reflector A"@
    ||| name == "Reflector B"@
    ||| name == "Reflector C"@
    ||| name == "Reflector B Thin"@
    ||| name == "Reflector C Thin"@
}

/// The catalog entry of a name: wiring, notch letters, and whether the wheel
/// is fixed (a reflector).
pub open spec fn catalog_spec(name: Seq<char>) -> (Seq<char>, Seq<char>, bool) {
    if name == "IC"@ {
        ("DMTWSILRUYQNKFEJCAZBPGXOHV"@, "Q"@, false)
    } else if name == "IIC"@ {
        ("HQZGPJTMOBLNCIFDYAWVEUSRKX"@, "E"@, false)
    } else if name == "IIIC"@ {
        ("UQNTLSZFMREHDPXKIBVYGJCWOA"@, "V"@, false)
    } else if name == "I"@ {
        ("JGDQOXUSCAMIFRVTPNEWKBLZYH"@, "Q"@, false)
    } else if name == "II"@ {
        ("NTZPSFBOKMWRCJDIVLAEYUXHGQ"@, "E"@, false)
    } else if name == "III"@ {
        ("JVIUBHTCDYAKEQZPOSGXNRMWFL"@, "V"@, false)
    } else if name == "IV"@ {
        ("ESOVPZJAYQUIRHXLNFTGKDCMWB"@, "J"@, false)
    } else if name == "V"@ {
        ("VZBRGITYUPSDNHLXAWMJQOFECK"@, "Z"@, false)
    } else if name == "VI"@ {
        ("JPGVOUMFYQBENHZRDKASXLICTW"@, "ZM"@, false)
    } else if name == "VII"@ {
        ("NZJHGRCXMYSWBOUFAIVLPEKQDT"@, "ZM"@, false)
    } else if name == "VIII"@ {
        ("FKQHTLXOCBJSPDZRAMEWNIUYGV"@, "ZM"@, false)
    } else if name == "Reflector A"@ {
        ("EJMZALYXVBWFCRQUONTSPIKHGD"@, ""@, true)
    } else if name == "Reflector B"@ {
        ("YRUHQSLDPXNGOKMIEBFZCWVJAT"@, ""@, true)
    } else if name == "Reflector C"@ {
        ("FVPJIAOYEDRZXWGCTKUQSBNMHL"@, ""@, true)
    } else if name == "Reflector B Thin"@ {
        ("ENKQAUYWJICOPBLMDXZVFTHRGS"@, ""@, true)
    } else if name == "Reflector C Thin"@ {
        ("RDOBJNTKVEHMLFCWZAXGYIPSUQ"@, ""@, true)
    } else {
        (Seq::empty(), Seq::empty(), false)
    }
}

/// The catalog wiring of wheel IC is a permutation of the alphabet,
/// and its notch letters come from the alphabet.
proof fn lemma_catalog_ic()
    ensures
        wiring_ok("DMTWSILRUYQNKFEJCAZBPGXOHV"@),
        notch_ok("Q"@),
{
    let w = "DMTWSILRUYQNKFEJCAZBPGXOHV"@;
    reveal_strlit("DMTWSILRUYQNKFEJCAZBPGXOHV");
    reveal_strlit("Q");
    assert forall|i: int| 0 <= i < 26 implies is_letter(#[trigger] w[i]) by {}
    assert forall|i: int, j: int| 0 <= i < 26 && 0 <= j < 26 && i != j implies w[i] != w[j] by {}
    assert forall|c: char| is_letter(c) implies #[trigger] w.contains(c) by {
        if c == 'A' {
            assert(w[17] == 'A');
        } else if c == 'B' {
            assert(w[19] == 'B');
        } else if c == 'C' {
            assert(w[16] == 'C');
        } else if c == 'D' {
            assert(w[0] == 'D');
        } else if c == 'E' {
            assert(w[14] == 'E');
        } else if c == 'F' {
            assert(w[13] == 'F');
        } else if c == 'G' {
            assert(w[21] == 'G');
        } else if c == 'H' {
            assert(w[24] == 'H');
        } else if c == 'I' {
            assert(w[5] == 'I');
        } else if c == 'J' {
            assert(w[15] == 'J');
        } else if c == 'K' {
            assert(w[12] == 'K');
        } else if c == 'L' {
            assert(w[6] == 'L');
        } else if c == 'M' {
            assert(w[1] == 'M');
        } else if c == 'N' {
            assert(w[11] == 'N');
        } else if c == 'O' {
            assert(w[23] == 'O');
        } else if c == 'P' {
            assert(w[20] == 'P');
        } else if c == 'Q' {
            assert(w[10] == 'Q');
        } else if c == 'R' {
            assert(w[7] == 'R');
        } else if c == 'S' {
            assert(w[4] == 'S');
        } else if c == 'T' {
            assert(w[2] == 'T');
        } else if c == 'U' {
            assert(w[8] == 'U');
        } else if c == 'V' {
            assert(w[25] == 'V');
        } else if c == 'W' {
            assert(w[3] == 'W');
        } else if c == 'X' {
            assert(w[22] == 'X');
        } else if c == 'Y' {
            assert(w[9] == 'Y');
        } else if c == 'Z' {
            assert(w[18] == 'Z');
        }
    }
}

/// The catalog wiring of wheel IIC is a permutation of the alphabet,
/// and its notch letters come from the alphabet.
proof fn lemma_catalog_iic()
    ensures
        wiring_ok("HQZGPJTMOBLNCIFDYAWVEUSRKX"@),
        notch_ok("E"@),
{
    let w = "HQZGPJTMOBLNCIFDYAWVEUSRKX"@;
    reveal_strlit("HQZGPJTMOBLNCIFDYAWVEUSRKX");
    reveal_strlit("E");
    assert forall|i: int| 0 <= i < 26 implies is_letter(#[trigger] w[i]) by {}
    assert forall|i: int, j: int| 0 <= i < 26 && 0 <= j < 26 && i != j implies w[i] != w[j] by {}
    assert forall|c: char| is_letter(c) implies #[trigger] w.contains(c) by {
        if c == 'A' {
            assert(w[17] == 'A');
        } else if c == 'B' {
            assert(w[9] == 'B');
        } else if c == 'C' {
            assert(w[12] == 'C');
        } else if c == 'D' {
            assert(w[15] == 'D');
        } else if c == 'E' {
            assert(w[20] == 'E');
        } else if c == 'F' {
            assert(w[14] == 'F');
        } else if c == 'G' {
            assert(w[3] == 'G');
        } else if c == 'H' {
            assert(w[0] == 'H');
        } else if c == 'I' {
            assert(w[13] == 'I');
        } else if c == 'J' {
            assert(w[5] == 'J');
        } else if c == 'K' {
            assert(w[24] == 'K');
        } else if c == 'L' {
            assert(w[10] == 'L');
        } else if c == 'M' {
            assert(w[7] == 'M');
        } else if c == 'N' {
            assert(w[11] == 'N');
        } else if c == 'O' {
            assert(w[8] == 'O');
        } else if c == 'P' {
            assert(w[4] == 'P');
        } else if c == 'Q' {
            assert(w[1] == 'Q');
        } else if c == 'R' {
            assert(w[23] == 'R');
        } else if c == 'S' {
            assert(w[22] == 'S');
        } else if c == 'T' {
            assert(w[6] == 'T');
        } else if c == 'U' {
            assert(w[21] == 'U');
        } else if c == 'V' {
            assert(w[19] == 'V');
        } else if c == 'W' {
            assert(w[18] == 'W');
        } else if c == 'X' {
            assert(w[25] == 'X');
        } else if c == 'Y' {
            assert(w[16] == 'Y');
        } else if c == 'Z' {
            assert(w[2] == 'Z');
        }
    }
}

/// The catalog wiring of wheel IIIC is a permutation of the alphabet,
/// and its notch letters come from the alphabet.
proof fn lemma_catalog_iiic()
    ensures
        wiring_ok("UQNTLSZFMREHDPXKIBVYGJCWOA"@),
        notch_ok("V"@),
{
    let w = "UQNTLSZFMREHDPXKIBVYGJCWOA"@;
    reveal_strlit("UQNTLSZFMREHDPXKIBVYGJCWOA");
    reveal_strlit("V");
    assert forall|i: int| 0 <= i < 26 implies is_letter(#[trigger] w[i]) by {}
    assert forall|i: int, j: int| 0 <= i < 26 && 0 <= j < 26 && i != j implies w[i] != w[j] by {}
    assert forall|c: char| is_letter(c) implies #[trigger] w.contains(c) by {
        if c == 'A' {
            assert(w[25] == 'A');
        } else if c == 'B' {
            assert(w[17] == 'B');
        } else if c == 'C' {
            assert(w[22] == 'C');
        } else if c == 'D' {
            assert(w[12] == 'D');
        } else if c == 'E' {
            assert(w[10] == 'E');
        } else if c == 'F' {
            assert(w[7] == 'F');
        } else if c == 'G' {
            assert(w[20] == 'G');
        } else if c == 'H' {
            assert(w[11] == 'H');
        } else if c == 'I' {
            assert(w[16] == 'I');
        } else if c == 'J' {
            assert(w[21] == 'J');
        } else if c == 'K' {
            assert(w[15] == 'K');
        } else if c == 'L' {
            assert(w[4] == 'L');
        } else if c == 'M' {
            assert(w[8] == 'M');
        } else if c == 'N' {
            assert(w[2] == 'N');
        } else if c == 'O' {
            assert(w[24] == 'O');
        } else if c == 'P' {
            assert(w[13] == 'P');
        } else if c == 'Q' {
            assert(w[1] == 'Q');
        } else if c == 'R' {
            assert(w[9] == 'R');
        } else if c == 'S' {
            assert(w[5] == 'S');
        } else if c == 'T' {
            assert(w[3] == 'T');
        } else if c == 'U' {
            assert(w[0] == 'U');
        } else if c == 'V' {
            assert(w[18] == 'V');
        } else if c == 'W' {
            assert(w[23] == 'W');
        } else if c == 'X' {
            assert(w[14] == 'X');
        } else if c == 'Y' {
            assert(w[19] == 'Y');
        } else if c == 'Z' {
            assert(w[6] == 'Z');
        }
    }
}

/// The catalog wiring of wheel I is a permutation of the alphabet,
/// and its notch letters come from the alphabet.
proof fn lemma_catalog_i()
    ensures
        wiring_ok("JGDQOXUSCAMIFRVTPNEWKBLZYH"@),
        notch_ok("Q"@),
{
    let w = "JGDQOXUSCAMIFRVTPNEWKBLZYH"@;
    reveal_strlit("JGDQOXUSCAMIFRVTPNEWKBLZYH");
    reveal_strlit("Q");
    assert forall|i: int| 0 <= i < 26 implies is_letter(#[trigger] w[i]) by {}
    assert forall|i: int, j: int| 0 <= i < 26 && 0 <= j < 26 && i != j implies w[i] != w[j] by {}
    assert forall|c: char| is_letter(c) implies #[trigger] w.contains(c) by {
        if c == 'A' {
            assert(w[9] == 'A');
        } else if c == 'B' {
            assert(w[21] == 'B');
        } else if c == 'C' {
            assert(w[8] == 'C');
        } else if c == 'D' {
            assert(w[2] == 'D');
        } else if c == 'E' {
            assert(w[18] == 'E');
        } else if c == 'F' {
            assert(w[12] == 'F');
        } else if c == 'G' {
            assert(w[1] == 'G');
        } else if c == 'H' {
            assert(w[25] == 'H');
        } else if c == 'I' {
            assert(w[11] == 'I');
        } else if c == 'J' {
            assert(w[0] == 'J');
        } else if c == 'K' {
            assert(w[20] == 'K');
        } else if c == 'L' {
            assert(w[22] == 'L');
        } else if c == 'M' {
            assert(w[10] == 'M');
        } else if c == 'N' {
            assert(w[17] == 'N');
        } else if c == 'O' {
            assert(w[4] == 'O');
        } else if c == 'P' {
            assert(w[16] == 'P');
        } else if c == 'Q' {
            assert(w[3] == 'Q');
        } else if c == 'R' {
            assert(w[13] == 'R');
        } else if c == 'S' {
            assert(w[7] == 'S');
        } else if c == 'T' {
            assert(w[15] == 'T');
        } else if c == 'U' {
            assert(w[6] == 'U');
        } else if c == 'V' {
            assert(w[14] == 'V');
        } else if c == 'W' {
            assert(w[19] == 'W');
        } else if c == 'X' {
            assert(w[5] == 'X');
        } else if c == 'Y' {
            assert(w[24] == 'Y');
        } else if c == 'Z' {
            assert(w[23] == 'Z');
        }
    }
}

/// The catalog wiring of wheel II is a permutation of the alphabet,
/// and its notch letters come from the alphabet.
proof fn lemma_catalog_ii()
    ensures
        wiring_ok("NTZPSFBOKMWRCJDIVLAEYUXHGQ"@),
        notch_ok("E"@),
{
    let w = "NTZPSFBOKMWRCJDIVLAEYUXHGQ"@;
    reveal_strlit("NTZPSFBOKMWRCJDIVLAEYUXHGQ");
    reveal_strlit("E");
    assert forall|i: int| 0 <= i < 26 implies is_letter(#[trigger] w[i]) by {}
    assert forall|i: int, j: int| 0 <= i < 26 && 0 <= j < 26 && i != j implies w[i] != w[j] by {}
    assert forall|c: char| is_letter(c) implies #[trigger] w.contains(c) by {
        if c == 'A' {
            assert(w[18] == 'A');
        } else if c == 'B' {
            assert(w[6] == 'B');
        } else if c == 'C' {
            assert(w[12] == 'C');
        } else if c == 'D' {
            assert(w[14] == 'D');
        } else if c == 'E' {
            assert(w[19] == 'E');
        } else if c == 'F' {
            assert(w[5] == 'F');
        } else if c == 'G' {
            assert(w[24] == 'G');
        } else if c == 'H' {
            assert(w[23] == 'H');
        } else if c == 'I' {
            assert(w[15] == 'I');
        } else if c == 'J' {
            assert(w[13] == 'J');
        } else if c == 'K' {
            assert(w[8] == 'K');
        } else if c == 'L' {
            assert(w[17] == 'L');
        } else if c == 'M' {
            assert(w[9] == 'M');
        } else if c == 'N' {
            assert(w[0] == 'N');
        } else if c == 'O' {
            assert(w[7] == 'O');
        } else if c == 'P' {
            assert(w[3] == 'P');
        } else if c == 'Q' {
            assert(w[25] == 'Q');
        } else if c == 'R' {
            assert(w[11] == 'R');
        } else if c == 'S' {
            assert(w[4] == 'S');
        } else if c == 'T' {
            assert(w[1] == 'T');
        } else if c == 'U' {
            assert(w[21] == 'U');
        } else if c == 'V' {
            assert(w[16] == 'V');
        } else if c == 'W' {
            assert(w[10] == 'W');
        } else if c == 'X' {
            assert(w[22] == 'X');
        } else if c == 'Y' {
            assert(w[20] == 'Y');
        } else if c == 'Z' {
            assert(w[2] == 'Z');
        }
    }
}

/// The catalog wiring of wheel III is a permutation of the alphabet,
/// and its notch letters come from the alphabet.
proof fn lemma_catalog_iii()
    ensures
        wiring_ok("JVIUBHTCDYAKEQZPOSGXNRMWFL"@),
        notch_ok("V"@),
{
    let w = "JVIUBHTCDYAKEQZPOSGXNRMWFL"@;
    reveal_strlit("JVIUBHTCDYAKEQZPOSGXNRMWFL");
    reveal_strlit("V");
    assert forall|i: int| 0 <= i < 26 implies is_letter(#[trigger] w[i]) by {}
    assert forall|i: int, j: int| 0 <= i < 26 && 0 <= j < 26 && i != j implies w[i] != w[j] by {}
    assert forall|c: char| is_letter(c) implies #[trigger] w.contains(c) by {
        if c == 'A' {
            assert(w[10] == 'A');
        } else if c == 'B' {
            assert(w[4] == 'B');
        } else if c == 'C' {
            assert(w[7] == 'C');
        } else if c == 'D' {
            assert(w[8] == 'D');
        } else if c == 'E' {
            assert(w[12] == 'E');
        } else if c == 'F' {
            assert(w[24] == 'F');
        } else if c == 'G' {
            assert(w[18] == 'G');
        } else if c == 'H' {
            assert(w[5] == 'H');
        } else if c == 'I' {
            assert(w[2] == 'I');
        } else if c == 'J' {
            assert(w[0] == 'J');
        } else if c == 'K' {
            assert(w[11] == 'K');
        } else if c == 'L' {
            assert(w[25] == 'L');
        } else if c == 'M' {
            assert(w[22] == 'M');
        } else if c == 'N' {
            assert(w[20] == 'N');
        } else if c == 'O' {
            assert(w[16] == 'O');
        } else if c == 'P' {
            assert(w[15] == 'P');
        } else if c == 'Q' {
            assert(w[13] == 'Q');
        } else if c == 'R' {
            assert(w[21] == 'R');
        } else if c == 'S' {
            assert(w[17] == 'S');
        } else if c == 'T' {
            assert(w[6] == 'T');
        } else if c == 'U' {
            assert(w[3] == 'U');
        } else if c == 'V' {
            assert(w[1] == 'V');
        } else if c == 'W' {
            assert(w[23] == 'W');
        } else if c == 'X' {
            assert(w[19] == 'X');
        } else if c == 'Y' {
            assert(w[9] == 'Y');
        } else if c == 'Z' {
            assert(w[14] == 'Z');
        }
    }
}

/// The catalog wiring of wheel IV is a permutation of the alphabet,
/// and its notch letters come from the alphabet.
proof fn lemma_catalog_iv()
    ensures
        wiring_ok("ESOVPZJAYQUIRHXLNFTGKDCMWB"@),
        notch_ok("J"@),
{
    let w = "ESOVPZJAYQUIRHXLNFTGKDCMWB"@;
    reveal_strlit("ESOVPZJAYQUIRHXLNFTGKDCMWB");
    reveal_strlit("J");
    assert forall|i: int| 0 <= i < 26 implies is_letter(#[trigger] w[i]) by {}
    assert forall|i: int, j: int| 0 <= i < 26 && 0 <= j < 26 && i != j implies w[i] != w[j] by {}
    assert forall|c: char| is_letter(c) implies #[trigger] w.contains(c) by {
        if c == 'A' {
            assert(w[7] == 'A');
        } else if c == 'B' {
            assert(w[25] == 'B');
        } else if c == 'C' {
            assert(w[22] == 'C');
        } else if c == 'D' {
            assert(w[21] == 'D');
        } else if c == 'E' {
            assert(w[0] == 'E');
        } else if c == 'F' {
            assert(w[17] == 'F');
        } else if c == 'G' {
            assert(w[19] == 'G');
        } else if c == 'H' {
            assert(w[13] == 'H');
        } else if c == 'I' {
            assert(w[11] == 'I');
        } else if c == 'J' {
            assert(w[6] == 'J');
        } else if c == 'K' {
            assert(w[20] == 'K');
        } else if c == 'L' {
            assert(w[15] == 'L');
        } else if c == 'M' {
            assert(w[23] == 'M');
        } else if c == 'N' {
            assert(w[16] == 'N');
        } else if c == 'O' {
            assert(w[2] == 'O');
        } else if c == 'P' {
            assert(w[4] == 'P');
        } else if c == 'Q' {
            assert(w[9] == 'Q');
        } else if c == 'R' {
            assert(w[12] == 'R');
        } else if c == 'S' {
            assert(w[1] == 'S');
        } else if c == 'T' {
            assert(w[18] == 'T');
        } else if c == 'U' {
            assert(w[10] == 'U');
        } else if c == 'V' {
            assert(w[3] == 'V');
        } else if c == 'W' {
            assert(w[24] == 'W');
        } else if c == 'X' {
            assert(w[14] == 'X');
        } else if c == 'Y' {
            assert(w[8] == 'Y');
        } else if c == 'Z' {
            assert(w[5] == 'Z');
        }
    }
}

/// The catalog wiring of wheel V is a permutation of the alphabet,
/// and its notch letters come from the alphabet.
proof fn lemma_catalog_v()
    ensures
        wiring_ok("VZBRGITYUPSDNHLXAWMJQOFECK"@),
        notch_ok("Z"@),
{
    let w = "VZBRGITYUPSDNHLXAWMJQOFECK"@;
    reveal_strlit("VZBRGITYUPSDNHLXAWMJQOFECK");
    reveal_strlit("Z");
    assert forall|i: int| 0 <= i < 26 implies is_letter(#[trigger] w[i]) by {}
    assert forall|i: int, j: int| 0 <= i < 26 && 0 <= j < 26 && i != j implies w[i] != w[j] by {}
    assert forall|c: char| is_letter(c) implies #[trigger] w.contains(c) by {
        if c == 'A' {
            assert(w[16] == 'A');
        } else if c == 'B' {
            assert(w[2] == 'B');
        } else if c == 'C' {
            assert(w[24] == 'C');
        } else if c == 'D' {
            assert(w[11] == 'D');
        } else if c == 'E' {
            assert(w[23] == 'E');
        } else if c == 'F' {
            assert(w[22] == 'F');
        } else if c == 'G' {
            assert(w[4] == 'G');
        } else if c == 'H' {
            assert(w[13] == 'H');
        } else if c == 'I' {
            assert(w[5] == 'I');
        } else if c == 'J' {
            assert(w[19] == 'J');
        } else if c == 'K' {
            assert(w[25] == 'K');
        } else if c == 'L' {
            assert(w[14] == 'L');
        } else if c == 'M' {
            assert(w[18] == 'M');
        } else if c == 'N' {
            assert(w[12] == 'N');
        } else if c == 'O' {
            assert(w[21] == 'O');
        } else if c == 'P' {
            assert(w[9] == 'P');
        } else if c == 'Q' {
            assert(w[20] == 'Q');
        } else if c == 'R' {
            assert(w[3] == 'R');
        } else if c == 'S' {
            assert(w[10] == 'S');
        } else if c == 'T' {
            assert(w[6] == 'T');
        } else if c == 'U' {
            assert(w[8] == 'U');
        } else if c == 'V' {
            assert(w[0] == 'V');
        } else if c == 'W' {
            assert(w[17] == 'W');
        } else if c == 'X' {
            assert(w[15] == 'X');
        } else if c == 'Y' {
            assert(w[7] == 'Y');
        } else if c == 'Z' {
            assert(w[1] == 'Z');
        }
    }
}

/// The catalog wiring of wheel VI is a permutation of the alphabet,
/// and its notch letters come from the alphabet.
proof fn lemma_catalog_vi()
    ensures
        wiring_ok("JPGVOUMFYQBENHZRDKASXLICTW"@),
        notch_ok("ZM"@),
{
    let w = "JPGVOUMFYQBENHZRDKASXLICTW"@;
    reveal_strlit("JPGVOUMFYQBENHZRDKASXLICTW");
    reveal_strlit("ZM");
    assert forall|i: int| 0 <= i < 26 implies is_letter(#[trigger] w[i]) by {}
    assert forall|i: int, j: int| 0 <= i < 26 && 0 <= j < 26 && i != j implies w[i] != w[j] by {}
    assert forall|c: char| is_letter(c) implies #[trigger] w.contains(c) by {
        if c == 'A' {
            assert(w[18] == 'A');
        } else if c == 'B' {
            assert(w[10] == 'B');
        } else if c == 'C' {
            assert(w[23] == 'C');
        } else if c == 'D' {
            assert(w[16] == 'D');
        } else if c == 'E' {
            assert(w[11] == 'E');
        } else if c == 'F' {
            assert(w[7] == 'F');
        } else if c == 'G' {
            assert(w[2] == 'G');
        } else if c == 'H' {
            assert(w[13] == 'H');
        } else if c == 'I' {
            assert(w[22] == 'I');
        } else if c == 'J' {
            assert(w[0] == 'J');
        } else if c == 'K' {
            assert(w[17] == 'K');
        } else if c == 'L' {
            assert(w[21] == 'L');
        } else if c == 'M' {
            assert(w[6] == 'M');
        } else if c == 'N' {
            assert(w[12] == 'N');
        } else if c == 'O' {
            assert(w[4] == 'O');
        } else if c == 'P' {
            assert(w[1] == 'P');
        } else if c == 'Q' {
            assert(w[9] == 'Q');
        } else if c == 'R' {
            assert(w[15] == 'R');
        } else if c == 'S' {
            assert(w[19] == 'S');
        } else if c == 'T' {
            assert(w[24] == 'T');
        } else if c == 'U' {
            assert(w[5] == 'U');
        } else if c == 'V' {
            assert(w[3] == 'V');
        } else if c == 'W' {
            assert(w[25] == 'W');
        } else if c == 'X' {
            assert(w[20] == 'X');
        } else if c == 'Y' {
            assert(w[8] == 'Y');
        } else if c == 'Z' {
            assert(w[14] == 'Z');
        }
    }
}

/// The catalog wiring of wheel VII is a permutation of the alphabet,
/// and its notch letters come from the alphabet.
proof fn lemma_catalog_vii()
    ensures
        wiring_ok("NZJHGRCXMYSWBOUFAIVLPEKQDT"@),
        notch_ok("ZM"@),
{
    let w = "NZJHGRCXMYSWBOUFAIVLPEKQDT"@;
    reveal_strlit("NZJHGRCXMYSWBOUFAIVLPEKQDT");
    reveal_strlit("ZM");
    assert forall|i: int| 0 <= i < 26 implies is_letter(#[trigger] w[i]) by {}
    assert forall|i: int, j: int| 0 <= i < 26 && 0 <= j < 26 && i != j implies w[i] != w[j] by {}
    assert forall|c: char| is_letter(c) implies #[trigger] w.contains(c) by {
        if c == 'A' {
            assert(w[16] == 'A');
        } else if c == 'B' {
            assert(w[12] == 'B');
        } else if c == 'C' {
            assert(w[6] == 'C');
        } else if c == 'D' {
            assert(w[24] == 'D');
        } else if c == 'E' {
            assert(w[21] == 'E');
        } else if c == 'F' {
            assert(w[15] == 'F');
        } else if c == 'G' {
            assert(w[4] == 'G');
        } else if c == 'H' {
            assert(w[3] == 'H');
        } else if c == 'I' {
            assert(w[17] == 'I');
        } else if c == 'J' {
            assert(w[2] == 'J');
        } else if c == 'K' {
            assert(w[22] == 'K');
        } else if c == 'L' {
            assert(w[19] == 'L');
        } else if c == 'M' {
            assert(w[8] == 'M');
        } else if c == 'N' {
            assert(w[0] == 'N');
        } else if c == 'O' {
            assert(w[13] == 'O');
        } else if c == 'P' {
            assert(w[20] == 'P');
        } else if c == 'Q' {
            assert(w[23] == 'Q');
        } else if c == 'R' {
            assert(w[5] == 'R');
        } else if c == 'S' {
            assert(w[10] == 'S');
        } else if c == 'T' {
            assert(w[25] == 'T');
        } else if c == 'U' {
            assert(w[14] == 'U');
        } else if c == 'V' {
            assert(w[18] == 'V');
        } else if c == 'W' {
            assert(w[11] == 'W');
        } else if c == 'X' {
            assert(w[7] == 'X');
        } else if c == 'Y' {
            assert(w[9] == 'Y');
        } else if c == 'Z' {
            assert(w[1] == 'Z');
        }
    }
}

/// The catalog wiring of wheel VIII is a permutation of the alphabet,
/// and its notch letters come from the alphabet.
proof fn lemma_catalog_viii()
    ensures
        wiring_ok("FKQHTLXOCBJSPDZRAMEWNIUYGV"@),
        notch_ok("ZM"@),
{
    let w = "FKQHTLXOCBJSPDZRAMEWNIUYGV"@;
    reveal_strlit("FKQHTLXOCBJSPDZRAMEWNIUYGV");
    reveal_strlit("ZM");
    assert forall|i: int| 0 <= i < 26 implies is_letter(#[trigger] w[i]) by {}
    assert forall|i: int, j: int| 0 <= i < 26 && 0 <= j < 26 && i != j implies w[i] != w[j] by {}
    assert forall|c: char| is_letter(c) implies #[trigger] w.contains(c) by {
        if c == 'A' {
            assert(w[16] == 'A');
        } else if c == 'B' {
            assert(w[9] == 'B');
        } else if c == 'C' {
            assert(w[8] == 'C');
        } else if c == 'D' {
            assert(w[13] == 'D');
        } else if c == 'E' {
            assert(w[18] == 'E');
        } else if c == 'F' {
            assert(w[0] == 'F');
        } else if c == 'G' {
            assert(w[24] == 'G');
        } else if c == 'H' {
            assert(w[3] == 'H');
        } else if c == 'I' {
            assert(w[21] == 'I');
        } else if c == 'J' {
            assert(w[10] == 'J');
        } else if c == 'K' {
            assert(w[1] == 'K');
        } else if c == 'L' {
            assert(w[5] == 'L');
        } else if c == 'M' {
            assert(w[17] == 'M');
        } else if c == 'N' {
            assert(w[20] == 'N');
        } else if c == 'O' {
            assert(w[7] == 'O');
        } else if c == 'P' {
            assert(w[12] == 'P');
        } else if c == 'Q' {
            assert(w[2] == 'Q');
        } else if c == 'R' {
            assert(w[15] == 'R');
        } else if c == 'S' {
            assert(w[11] == 'S');
        } else if c == 'T' {
            assert(w[4] == 'T');
        } else if c == 'U' {
            assert(w[22] == 'U');
        } else if c == 'V' {
            assert(w[25] == 'V');
        } else if c == 'W' {
            assert(w[19] == 'W');
        } else if c == 'X' {
            assert(w[6] == 'X');
        } else if c == 'Y' {
            assert(w[23] == 'Y');
        } else if c == 'Z' {
            assert(w[14] == 'Z');
        }
    }
}

/// The catalog wiring of wheel Reflector A is a permutation of the alphabet,
/// and its notch letters come from the alphabet.
proof fn lemma_catalog_refl_a()
    ensures
        wiring_ok("EJMZALYXVBWFCRQUONTSPIKHGD"@),
        notch_ok(""@),
{
    let w = "EJMZALYXVBWFCRQUONTSPIKHGD"@;
    reveal_strlit("EJMZALYXVBWFCRQUONTSPIKHGD");
    reveal_strlit("");
    assert forall|i: int| 0 <= i < 26 implies is_letter(#[trigger] w[i]) by {}
    assert forall|i: int, j: int| 0 <= i < 26 && 0 <= j < 26 && i != j implies w[i] != w[j] by {}
    assert forall|c: char| is_letter(c) implies #[trigger] w.contains(c) by {
        if c == 'A' {
            assert(w[4] == 'A');
        } else if c == 'B' {
            assert(w[9] == 'B');
        } else if c == 'C' {
            assert(w[12] == 'C');
        } else if c == 'D' {
            assert(w[25] == 'D');
        } else if c == 'E' {
            assert(w[0] == 'E');
        } else if c == 'F' {
            assert(w[11] == 'F');
        } else if c == 'G' {
            assert(w[24] == 'G');
        } else if c == 'H' {
            assert(w[23] == 'H');
        } else if c == 'I' {
            assert(w[21] == 'I');
        } else if c == 'J' {
            assert(w[1] == 'J');
        } else if c == 'K' {
            assert(w[22] == 'K');
        } else if c == 'L' {
            assert(w[5] == 'L');
        } else if c == 'M' {
            assert(w[2] == 'M');
        } else if c == 'N' {
            assert(w[17] == 'N');
        } else if c == 'O' {
            assert(w[16] == 'O');
        } else if c == 'P' {
            assert(w[20] == 'P');
        } else if c == 'Q' {
            assert(w[14] == 'Q');
        } else if c == 'R' {
            assert(w[13] == 'R');
        } else if c == 'S' {
            assert(w[19] == 'S');
        } else if c == 'T' {
            assert(w[18] == 'T');
        } else if c == 'U' {
            assert(w[15] == 'U');
        } else if c == 'V' {
            assert(w[8] == 'V');
        } else if c == 'W' {
            assert(w[10] == 'W');
        } else if c == 'X' {
            assert(w[7] == 'X');
        } else if c == 'Y' {
            assert(w[6] == 'Y');
        } else if c == 'Z' {
            assert(w[3] == 'Z');
        }
    }
}

/// The catalog wiring of wheel Reflector B is a permutation of the alphabet,
/// and its notch letters come from the alphabet.
proof fn lemma_catalog_refl_b()
    ensures
        wiring_ok("YRUHQSLDPXNGOKMIEBFZCWVJAT"@),
        notch_ok(""@),
{
    let w = "YRUHQSLDPXNGOKMIEBFZCWVJAT"@;
    reveal_strlit("YRUHQSLDPXNGOKMIEBFZCWVJAT");
    reveal_strlit("");
    assert forall|i: int| 0 <= i < 26 implies is_letter(#[trigger] w[i]) by {}
    assert forall|i: int, j: int| 0 <= i < 26 && 0 <= j < 26 && i != j implies w[i] != w[j] by {}
    assert forall|c: char| is_letter(c) implies #[trigger] w.contains(c) by {
        if c == 'A' {
            assert(w[24] == 'A');
        } else if c == 'B' {
            assert(w[17] == 'B');
        } else if c == 'C' {
            assert(w[20] == 'C');
        } else if c == 'D' {
            assert(w[7] == 'D');
        } else if c == 'E' {
            assert(w[16] == 'E');
        } else if c == 'F' {
            assert(w[18] == 'F');
        } else if c == 'G' {
            assert(w[11] == 'G');
        } else if c == 'H' {
            assert(w[3] == 'H');
        } else if c == 'I' {
            assert(w[15] == 'I');
        } else if c == 'J' {
            assert(w[23] == 'J');
        } else if c == 'K' {
            assert(w[13] == 'K');
        } else if c == 'L' {
            assert(w[6] == 'L');
        } else if c == 'M' {
            assert(w[14] == 'M');
        } else if c == 'N' {
            assert(w[10] == 'N');
        } else if c == 'O' {
            assert(w[12] == 'O');
        } else if c == 'P' {
            assert(w[8] == 'P');
        } else if c == 'Q' {
            assert(w[4] == 'Q');
        } else if c == 'R' {
            assert(w[1] == 'R');
        } else if c == 'S' {
            assert(w[5] == 'S');
        } else if c == 'T' {
            assert(w[25] == 'T');
        } else if c == 'U' {
            assert(w[2] == 'U');
        } else if c == 'V' {
            assert(w[22] == 'V');
        } else if c == 'W' {
            assert(w[21] == 'W');
        } else if c == 'X' {
            assert(w[9] == 'X');
        } else if c == 'Y' {
            assert(w[0] == 'Y');
        } else if c == 'Z' {
            assert(w[19] == 'Z');
        }
    }
}

/// The catalog wiring of wheel Reflector C is a permutation of the alphabet,
/// and its notch letters come from the alphabet.
proof fn lemma_catalog_refl_c()
    ensures
        wiring_ok("FVPJIAOYEDRZXWGCTKUQSBNMHL"@),
        notch_ok(""@),
{
    let w = "FVPJIAOYEDRZXWGCTKUQSBNMHL"@;
    reveal_strlit("FVPJIAOYEDRZXWGCTKUQSBNMHL");
    reveal_strlit("");
    assert forall|i: int| 0 <= i < 26 implies is_letter(#[trigger] w[i]) by {}
    assert forall|i: int, j: int| 0 <= i < 26 && 0 <= j < 26 && i != j implies w[i] != w[j] by {}
    assert forall|c: char| is_letter(c) implies #[trigger] w.contains(c) by {
        if c == 'A' {
            assert(w[5] == 'A');
        } else if c == 'B' {
            assert(w[21] == 'B');
        } else if c == 'C' {
            assert(w[15] == 'C');
        } else if c == 'D' {
            assert(w[9] == 'D');
        } else if c == 'E' {
            assert(w[8] == 'E');
        } else if c == 'F' {
            assert(w[0] == 'F');
        } else if c == 'G' {
            assert(w[14] == 'G');
        } else if c == 'H' {
            assert(w[24] == 'H');
        } else if c == 'I' {
            assert(w[4] == 'I');
        } else if c == 'J' {
            assert(w[3] == 'J');
        } else if c == 'K' {
            assert(w[17] == 'K');
        } else if c == 'L' {
            assert(w[25] == 'L');
        } else if c == 'M' {
            assert(w[23] == 'M');
        } else if c == 'N' {
            assert(w[22] == 'N');
        } else if c == 'O' {
            assert(w[6] == 'O');
        } else if c == 'P' {
            assert(w[2] == 'P');
        } else if c == 'Q' {
            assert(w[19] == 'Q');
        } else if c == 'R' {
            assert(w[10] == 'R');
        } else if c == 'S' {
            assert(w[20] == 'S');
        } else if c == 'T' {
            assert(w[16] == 'T');
        } else if c == 'U' {
            assert(w[18] == 'U');
        } else if c == 'V' {
            assert(w[1] == 'V');
        } else if c == 'W' {
            assert(w[13] == 'W');
        } else if c == 'X' {
            assert(w[12] == 'X');
        } else if c == 'Y' {
            assert(w[7] == 'Y');
        } else if c == 'Z' {
            assert(w[11] == 'Z');
        }
    }
}

/// The catalog wiring of wheel Reflector B Thin is a permutation of the alphabet,
/// and its notch letters come from the alphabet.
proof fn lemma_catalog_refl_b_thin()
    ensures
        wiring_ok("ENKQAUYWJICOPBLMDXZVFTHRGS"@),
        notch_ok(""@),
{
    let w = "ENKQAUYWJICOPBLMDXZVFTHRGS"@;
    reveal_strlit("ENKQAUYWJICOPBLMDXZVFTHRGS");
    reveal_strlit("");
    assert forall|i: int| 0 <= i < 26 implies is_letter(#[trigger] w[i]) by {}
    assert forall|i: int, j: int| 0 <= i < 26 && 0 <= j < 26 && i != j implies w[i] != w[j] by {}
    assert forall|c: char| is_letter(c) implies #[trigger] w.contains(c) by {
        if c == 'A' {
            assert(w[4] == 'A');
        } else if c == 'B' {
            assert(w[13] == 'B');
        } else if c == 'C' {
            assert(w[10] == 'C');
        } else if c == 'D' {
            assert(w[16] == 'D');
        } else if c == 'E' {
            assert(w[0] == 'E');
        } else if c == 'F' {
            assert(w[20] == 'F');
        } else if c == 'G' {
            assert(w[24] == 'G');
        } else if c == 'H' {
            assert(w[22] == 'H');
        } else if c == 'I' {
            assert(w[9] == 'I');
        } else if c == 'J' {
            assert(w[8] == 'J');
        } else if c == 'K' {
            assert(w[2] == 'K');
        } else if c == 'L' {
            assert(w[14] == 'L');
        } else if c == 'M' {
            assert(w[15] == 'M');
        } else if c == 'N' {
            assert(w[1] == 'N');
        } else if c == 'O' {
            assert(w[11] == 'O');
        } else if c == 'P' {
            assert(w[12] == 'P');
        } else if c == 'Q' {
            assert(w[3] == 'Q');
        } else if c == 'R' {
            assert(w[23] == 'R');
        } else if c == 'S' {
            assert(w[25] == 'S');
        } else if c == 'T' {
            assert(w[21] == 'T');
        } else if c == 'U' {
            assert(w[5] == 'U');
        } else if c == 'V' {
            assert(w[19] == 'V');
        } else if c == 'W' {
            assert(w[7] == 'W');
        } else if c == 'X' {
            assert(w[17] == 'X');
        } else if c == 'Y' {
            assert(w[6] == 'Y');
        } else if c == 'Z' {
            assert(w[18] == 'Z');
        }
    }
}

/// The catalog wiring of wheel Reflector C Thin is a permutation of the alphabet,
/// and its notch letters come from the alphabet.
proof fn lemma_catalog_refl_c_thin()
    ensures
        wiring_ok("RDOBJNTKVEHMLFCWZAXGYIPSUQ"@),
        notch_ok(""@),
{
    let w = "RDOBJNTKVEHMLFCWZAXGYIPSUQ"@;
    reveal_strlit("RDOBJNTKVEHMLFCWZAXGYIPSUQ");
    reveal_strlit("");
    assert forall|i: int| 0 <= i < 26 implies is_letter(#[trigger] w[i]) by {}
    assert forall|i: int, j: int| 0 <= i < 26 && 0 <= j < 26 && i != j implies w[i] != w[j] by {}
    assert forall|c: char| is_letter(c) implies #[trigger] w.contains(c) by {
        if c == 'A' {
            assert(w[17] == 'A');
        } else if c == 'B' {
            assert(w[3] == 'B');
        } else if c == 'C' {
            assert(w[14] == 'C');
        } else if c == 'D' {
            assert(w[1] == 'D');
        } else if c == 'E' {
            assert(w[9] == 'E');
        } else if c == 'F' {
            assert(w[13] == 'F');
        } else if c == 'G' {
            assert(w[19] == 'G');
        } else if c == 'H' {
            assert(w[10] == 'H');
        } else if c == 'I' {
            assert(w[21] == 'I');
        } else if c == 'J' {
            assert(w[4] == 'J');
        } else if c == 'K' {
            assert(w[7] == 'K');
        } else if c == 'L' {
            assert(w[12] == 'L');
        } else if c == 'M' {
            assert(w[11] == 'M');
        } else if c == 'N' {
            assert(w[5] == 'N');
        } else if c == 'O' {
            assert(w[2] == 'O');
        } else if c == 'P' {
            assert(w[22] == 'P');
        } else if c == 'Q' {
            assert(w[25] == 'Q');
        } else if c == 'R' {
            assert(w[0] == 'R');
        } else if c == 'S' {
            assert(w[23] == 'S');
        } else if c == 'T' {
            assert(w[6] == 'T');
        } else if c == 'U' {
            assert(w[24] == 'U');
        } else if c == 'V' {
            assert(w[8] == 'V');
        } else if c == 'W' {
            assert(w[15] == 'W');
        } else if c == 'X' {
            assert(w[18] == 'X');
        } else if c == 'Y' {
            assert(w[20] == 'Y');
        } else if c == 'Z' {
            assert(w[16] == 'Z');
        }
    }
}

impl Wheel {
    /// Well-formedness of the underlying view.
    pub open spec fn wf(&self) -> bool {
        self@.wf()
    }

    /// A wheel from its parts, offset zero.
    pub fn new(name: &str, wiring: &str, notch: &str, fixed: bool) -> (w: Wheel)
        ensures
            w@ == (WheelV { name: name@, wiring: wiring@, notch: notch@, step: 0, fixed }),
    {
        Wheel {
            name: name.to_owned(),
            wiring: wiring.to_owned(),
            step: 0,
            notch: notch.to_owned(),
            fixed,
        }
    }

    /// Looks a wheel up in the catalog.  Fails with `UnknownRotor` exactly
    /// when the catalog does not hold the name; every wheel handed out is
    /// well formed.
    pub fn by_name(name: &str) -> (r: Result<Wheel, EnigmaError>)
        ensures
            r is Ok <==> catalog_has(name@),
            r matches Ok(w) ==> w@ == (WheelV {
                name: name@,
                wiring: catalog_spec(name@).0,
                notch: catalog_spec(name@).1,
                step: 0,
                fixed: catalog_spec(name@).2,
            }) && w.wf(),
            r matches Err(e) ==> e == EnigmaError::UnknownRotor,
    {
        if str_eq(name, "IC") {
            {
            proof {
                lemma_catalog_ic();
            }
            Ok(Wheel::new(name, "DMTWSILRUYQNKFEJCAZBPGXOHV", "Q", false))
        }
        } else if str_eq(name, "IIC") {
            {
            proof {
                lemma_catalog_iic();
            }
            Ok(Wheel::new(name, "HQZGPJTMOBLNCIFDYAWVEUSRKX", "E", false))
        }
        } else if str_eq(name, "IIIC") {
            {
            proof {
                lemma_catalog_iiic();
            }
            Ok(Wheel::new(name, "UQNTLSZFMREHDPXKIBVYGJCWOA", "V", false))
        }
        } else if str_eq(name, "I") {
            {
            proof {
                lemma_catalog_i();
            }
            Ok(Wheel::new(name, "JGDQOXUSCAMIFRVTPNEWKBLZYH", "Q", false))
        }
        } else if str_eq(name, "II") {
            {
            proof {
                lemma_catalog_ii();
            }
            Ok(Wheel::new(name, "NTZPSFBOKMWRCJDIVLAEYUXHGQ", "E", false))
        }
        } else if str_eq(name, "III") {
            {
            proof {
                lemma_catalog_iii();
            }
            Ok(Wheel::new(name, "JVIUBHTCDYAKEQZPOSGXNRMWFL", "V", false))
        }
        } else if str_eq(name, "IV") {
            {
            proof {
                lemma_catalog_iv();
            }
            Ok(Wheel::new(name, "ESOVPZJAYQUIRHXLNFTGKDCMWB", "J", false))
        }
        } else if str_eq(name, "V") {
            {
            proof {
                lemma_catalog_v();
            }
            Ok(Wheel::new(name, "VZBRGITYUPSDNHLXAWMJQOFECK", "Z", false))
        }
        } else if str_eq(name, "VI") {
            {
            proof {
                lemma_catalog_vi();
            }
            Ok(Wheel::new(name, "JPGVOUMFYQBENHZRDKASXLICTW", "ZM", false))
        }
        } else if str_eq(name, "VII") {
            {
            proof {
                lemma_catalog_vii();
            }
            Ok(Wheel::new(name, "NZJHGRCXMYSWBOUFAIVLPEKQDT", "ZM", false))
        }
        } else if str_eq(name, "VIII") {
            {
            proof {
                lemma_catalog_viii();
            }
            Ok(Wheel::new(name, "FKQHTLXOCBJSPDZRAMEWNIUYGV", "ZM", false))
        }
        } else if str_eq(name, "Reflector A") {
            {
            proof {
                lemma_catalog_refl_a();
            }
            Ok(Wheel::new(name, "EJMZALYXVBWFCRQUONTSPIKHGD", "", true))
        }
        } else if str_eq(name, "Reflector B") {
            {
            proof {
                lemma_catalog_refl_b();
            }
            Ok(Wheel::new(name, "YRUHQSLDPXNGOKMIEBFZCWVJAT", "", true))
        }
        } else if str_eq(name, "Reflector C") {
            {
            proof {
                lemma_catalog_refl_c();
            }
            Ok(Wheel::new(name, "FVPJIAOYEDRZXWGCTKUQSBNMHL", "", true))
        }
        } else if str_eq(name, "Reflector B Thin") {
            {
            proof {
                lemma_catalog_refl_b_thin();
            }
            Ok(Wheel::new(name, "ENKQAUYWJICOPBLMDXZVFTHRGS", "", true))
        }
        } else if str_eq(name, "Reflector C Thin") {
            {
            proof {
                lemma_catalog_refl_c_thin();
            }
            Ok(Wheel::new(name, "RDOBJNTKVEHMLFCWZAXGYIPSUQ", "", true))
        }
        } else {
            Err(EnigmaError::UnknownRotor)
        }
    }

    /// Euclidean remainder: the representative of `n` modulo `m` in `[0, m)`.
    pub fn modulo(n: i32, m: i32) -> (r: i32)
        requires
            0 < m < 0x4000_0000,
        ensures
            r == (n as int) % (m as int),
            0 <= r < m,
    {
        let t = n % m;
        let u = t + m;
        let r = u % m;
        proof {
            let rr = (n as int) % (m as int);
            vstd::arithmetic::div_mod::lemma_mod_bound(n as int, m as int);
            if n >= 0 {
                assert(t == rr);
            } else {
                let nn = -(n as int);
                let g = nn % (m as int);
                assert(t == -g);
                vstd::arithmetic::div_mod::lemma_mod_bound(nn, m as int);
                vstd::arithmetic::div_mod::lemma_fundamental_div_mod(nn, m as int);
                let q = nn / (m as int);
                assert(n as int == (m as int) * (-q) + (-g)) by (nonlinear_arith)
                    requires
                        nn == (m as int) * q + g,
                        nn == -(n as int),
                ;
                vstd::arithmetic::div_mod::lemma_mod_multiples_vanish(-q, -g, m as int);
                if g == 0 {
                    vstd::arithmetic::div_mod::lemma_small_mod(0, m as nat);
                } else {
                    vstd::arithmetic::div_mod::lemma_mod_add_multiples_vanish(-g, m as int);
                    vstd::arithmetic::div_mod::lemma_small_mod((m - g) as nat, m as nat);
                }
            }
            assert(t == rr || t == rr - m);
            vstd::arithmetic::div_mod::lemma_small_mod(rr as nat, m as nat);
            vstd::arithmetic::div_mod::lemma_mod_add_multiples_vanish(rr, m as int);
        }
        r
    }

    /// Whether the wheel's offset sits on one of its notch letters.
    pub fn on_notch(&self) -> (b: bool)
        requires
            self.step < 26,
        ensures
            b == self@.on_notch(),
    {
        str_contains_char(self.notch.as_str(), chr_of(self.step))
    }

    /// The transform toward the reflector: the letter at the wiring contact
    /// that the current offset lines up with the input letter.
    pub fn send_right(&self, c: char) -> (r: char)
        requires
            self.wf(),
            is_letter(c),
        ensures
            r == send_right_spec(self@, c),
            is_letter(r),
    {
        let index = pos_of(c);
        let new_index = Wheel::modulo(index as i32 + self.step as i32, 26);
        proof {
            lemma_wrap_add_mod(pos_spec(c), self@.step);
        }
        self.wiring.as_str().get_char(new_index as usize)
    }

    /// The transform back from the reflector: the alphabet letter whose
    /// shifted position the wiring maps onto the input letter.
    pub fn send_left(&self, c: char) -> (r: char)
        requires
            self.wf(),
            is_letter(c),
        ensures
            r == send_left_spec(self@, c),
            is_letter(r),
    {
        let index = self.find_in_wiring(c);
        let new_index = Wheel::modulo(index as i32 - self.step as i32, 26);
        proof {
            lemma_wrap_sub_mod(self@.wiring.index_of(c), self@.step);
        }
        chr_of(new_index as usize)
    }

    /// The index of a letter inside the wiring string.
    fn find_in_wiring(&self, c: char) -> (i: usize)
        requires
            self.wf(),
            is_letter(c),
        ensures
            i == self@.wiring.index_of(c),
            i < 26,
    {
        for i in 0..26usize
            invariant
                self.wf(),
                is_letter(c),
                forall|k: int| 0 <= k < i ==> self@.wiring[k] != c,
        {
            if self.wiring.as_str().get_char(i) == c {
                proof {
                    lemma_index_of_unique(self@.wiring, c, i as int);
                }
                return i;
            }
        }
        proof {
            lemma_index_of_in_range(self@.wiring, c);
            assert(false);
        }
        0
    }
}

/// Wrapped position sums agree with the Euclidean remainder.
pub proof fn lemma_wrap_add_mod(p: int, s: int)
    requires
        0 <= p < 26,
        0 <= s < 26,
    ensures
        (p + s) % 26 == wrap_add(p, s),
        0 <= wrap_add(p, s) < 26,
{
    if p + s < 26 {
        vstd::arithmetic::div_mod::lemma_small_mod((p + s) as nat, 26);
    } else {
        vstd::arithmetic::div_mod::lemma_mod_sub_multiples_vanish(p + s, 26);
        vstd::arithmetic::div_mod::lemma_small_mod((p + s - 26) as nat, 26);
    }
}

/// Wrapped position differences agree with the Euclidean remainder.
pub proof fn lemma_wrap_sub_mod(p: int, s: int)
    requires
        0 <= p < 26,
        0 <= s < 26,
    ensures
        (p - s) % 26 == wrap_sub(p, s),
        0 <= wrap_sub(p, s) < 26,
{
    if p - s < 0 {
        vstd::arithmetic::div_mod::lemma_mod_add_multiples_vanish(p - s, 26);
        vstd::arithmetic::div_mod::lemma_small_mod((p - s + 26) as nat, 26);
    } else {
        vstd::arithmetic::div_mod::lemma_small_mod((p - s) as nat, 26);
    }
}

} // verus!
