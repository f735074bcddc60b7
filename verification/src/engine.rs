//! The cipher engine: an ordered stack of wheels and a plugboard.
//!
//! The engine advances the stack before every routed letter (an odometer
//! whose wheels also step themselves when standing on a notch: the
//! double-stepping anomaly), then sends the letter through plugboard,
//! wheels, reflector, wheels again and plugboard again.

use vstd::prelude::*;
use vstd::string::StrSliceExecFns;

use crate::errors::EnigmaError;
use crate::letters::{
    chr_of, chr_spec, is_alpha, is_letter, lemma_chr_pos, lemma_pos_chr, pos_of, pos_spec,
    to_upper, upper_spec,
};
use crate::wheel::{catalog_has, catalog_spec, Wheel, WheelV};

verus! {

/// The mathematical content of an engine: its view.
#[verifier::ext_equal]
pub ghost struct EngineV {
    pub wheels: Seq<WheelV>,
    pub plug: Seq<char>,
    pub starts: Seq<int>,
}

/// The identity plugboard table: every letter maps to itself.
pub open spec fn ident_spec() -> Seq<char> {
    Seq::new(26, |i: int| chr_spec(i))
}

/// A plugboard table is a self-inverse permutation of the alphabet.
pub open spec fn plug_ok(p: Seq<char>) -> bool {
    &&& p.len() == 26
    &&& forall|i: int| 0 <= i < 26 ==> is_letter(#[trigger] p[i])
    &&& forall|i: int| 0 <= i < 26 ==> p[pos_spec(#[trigger] p[i])] == chr_spec(i)
}

/// What the plugboard does to one character: letters go through the table,
/// everything else passes unchanged.
pub open spec fn plug_spec(p: Seq<char>, c: char) -> char {
    if is_letter(c) {
        p[pos_spec(c)]
    } else {
        c
    }
}

/// Whether a plug pair touches the character `c`.
pub open spec fn mentions(pair: (char, char), c: char) -> bool {
    pair.0 == c || pair.1 == c
}

/// Valid plug pairs: both ends are distinct letters, and no letter occurs in
/// two pairs.
pub open spec fn plugs_valid(ps: Seq<(char, char)>) -> bool {
    &&& forall|k: int|
        0 <= k < ps.len() ==> is_letter((#[trigger] ps[k]).0) && is_letter(ps[k].1) && ps[k].0
            != ps[k].1
    &&& forall|k1: int, k2: int|
        0 <= k1 < k2 < ps.len() ==> !mentions(#[trigger] ps[k1], (#[trigger] ps[k2]).0)
            && !mentions(ps[k1], ps[k2].1)
}

/// The plugboard table that a pair list builds: the identity, overwritten in
/// both directions for each pair in order.
pub open spec fn plug_of(ps: Seq<(char, char)>) -> Seq<char>
    decreases ps.len(),
{
    if ps.len() == 0 {
        ident_spec()
    } else {
        let p = plug_of(ps.drop_last());
        let pair = ps.last();
        p.update(pos_spec(pair.0), pair.1).update(pos_spec(pair.1), pair.0)
    }
}

/// The identity table is a well-formed plugboard.
pub proof fn lemma_ident_ok()
    ensures
        plug_ok(ident_spec()),
{
    assert forall|i: int| 0 <= i < 26 implies is_letter(#[trigger] ident_spec()[i]) by {
        lemma_pos_chr(i);
    }
    assert forall|i: int| 0 <= i < 26 implies ident_spec()[pos_spec(
        #[trigger] ident_spec()[i],
    )] == chr_spec(i) by {
        lemma_pos_chr(i);
    }
}

/// Restricting a valid pair list to a prefix keeps it valid.
pub proof fn lemma_plugs_valid_drop_last(ps: Seq<(char, char)>)
    requires
        plugs_valid(ps),
        ps.len() > 0,
    ensures
        plugs_valid(ps.drop_last()),
{
}

/// A configured pair swaps its two letters in the finished table.
pub proof fn lemma_plug_of_pair(ps: Seq<(char, char)>, k: int)
    requires
        plugs_valid(ps),
        0 <= k < ps.len(),
    ensures
        plug_of(ps).len() == 26,
        plug_of(ps)[pos_spec(ps[k].0)] == ps[k].1,
        plug_of(ps)[pos_spec(ps[k].1)] == ps[k].0,
    decreases ps.len(),
{
    lemma_plug_of_len(ps);
    let last = ps.last();
    lemma_chr_pos(last.0);
    lemma_chr_pos(last.1);
    lemma_chr_pos(ps[k].0);
    lemma_chr_pos(ps[k].1);
    if k == ps.len() - 1 {
        lemma_plug_of_len(ps.drop_last());
    } else {
        lemma_plugs_valid_drop_last(ps);
        lemma_plug_of_pair(ps.drop_last(), k);
    }
}

/// A letter no pair mentions stays fixed in the finished table.
pub proof fn lemma_plug_of_unpaired(ps: Seq<(char, char)>, c: char)
    requires
        plugs_valid(ps),
        is_letter(c),
        forall|k: int| 0 <= k < ps.len() ==> !mentions(#[trigger] ps[k], c),
    ensures
        plug_of(ps).len() == 26,
        plug_of(ps)[pos_spec(c)] == c,
    decreases ps.len(),
{
    lemma_plug_of_len(ps);
    lemma_chr_pos(c);
    if ps.len() > 0 {
        let last = ps.last();
        lemma_chr_pos(last.0);
        lemma_chr_pos(last.1);
        lemma_plugs_valid_drop_last(ps);
        lemma_plug_of_unpaired(ps.drop_last(), c);
    }
}

/// The finished table always covers the whole alphabet.
pub proof fn lemma_plug_of_len(ps: Seq<(char, char)>)
    requires
        plugs_valid(ps),
    ensures
        plug_of(ps).len() == 26,
    decreases ps.len(),
{
    if ps.len() > 0 {
        lemma_plugs_valid_drop_last(ps);
        lemma_plug_of_len(ps.drop_last());
        lemma_chr_pos(ps.last().0);
        lemma_chr_pos(ps.last().1);
    }
}

/// A valid pair list builds a well-formed (self-inverse) plugboard.
pub proof fn lemma_plug_of_ok(ps: Seq<(char, char)>)
    requires
        plugs_valid(ps),
    ensures
        plug_ok(plug_of(ps)),
{
    let p = plug_of(ps);
    lemma_plug_of_len(ps);
    assert forall|i: int| 0 <= i < 26 implies is_letter(#[trigger] p[i]) && p[pos_spec(p[i])]
        == chr_spec(i) by {
        let c = chr_spec(i);
        lemma_pos_chr(i);
        if exists|k: int| 0 <= k < ps.len() && mentions(#[trigger] ps[k], c) {
            let k = choose|k: int| 0 <= k < ps.len() && mentions(#[trigger] ps[k], c);
            lemma_plug_of_pair(ps, k);
            lemma_chr_pos(ps[k].0);
            lemma_chr_pos(ps[k].1);
        } else {
            lemma_plug_of_unpaired(ps, c);
        }
    }
}

/// A rotor-offset configuration for one slot: the catalog name of the wheel
/// and its starting offset.
#[derive(Debug)]
pub struct RotorConfig {
    pub name: String,
    pub position: usize,
}

/// The mathematical content of a rotor configuration.
#[verifier::ext_equal]
pub ghost struct RotorConfigV {
    pub name: Seq<char>,
    pub position: int,
}

impl View for RotorConfig {
    type V = RotorConfigV;

    open spec fn view(&self) -> RotorConfigV {
        RotorConfigV { name: self.name@, position: self.position as int }
    }
}

/// The cipher machine: an ordered wheel stack, a plugboard table, and the
/// configured starting offsets kept for `restore`.
#[derive(Debug)]
pub struct Enigma {
    pub wheels: Vec<Wheel>,
    pub plugboard: Vec<char>,
    pub starts: Vec<usize>,
}

impl View for Enigma {
    type V = EngineV;

    open spec fn view(&self) -> EngineV {
        EngineV {
            wheels: self.wheels@.map_values(|w: Wheel| w@),
            plug: self.plugboard@,
            starts: self.starts@.map_values(|s: usize| s as int),
        }
    }
}

impl EngineV {
    /// Well-formedness: every wheel is well formed, the plugboard is a
    /// self-inverse permutation, and one starting offset is kept per wheel.
    pub open spec fn wf(self) -> bool {
        &&& forall|k: int| 0 <= k < self.wheels.len() ==> (#[trigger] self.wheels[k]).wf()
        &&& plug_ok(self.plug)
        &&& self.starts.len() == self.wheels.len()
        &&& forall|k: int| 0 <= k < self.starts.len() ==> 0 <= #[trigger] self.starts[k] < 26
    }
}

/// The identity plugboard table, as a fresh vector.
fn ident_table() -> (v: Vec<char>)
    ensures
        v@ == ident_spec(),
{
    let mut v: Vec<char> = Vec::new();
    for i in 0..26usize
        invariant
            v@.len() == i,
            forall|k: int| 0 <= k < i ==> v@[k] == chr_spec(k),
    {
        v.push(chr_of(i));
    }
    proof {
        assert(v@ =~= ident_spec());
    }
    v
}

/// Relies on std's `String::push`: appends the given character at the end.
#[verifier::external_body]
fn push_char(s: &mut String, c: char)
    ensures
        final(s)@ == old(s)@.push(c),
{
    s.push(c);
}

impl Enigma {
    /// Well-formedness of the underlying view.
    pub open spec fn wf(&self) -> bool {
        self@.wf()
    }

    /// An engine with no wheels and an identity plugboard.
    pub fn new() -> (e: Enigma)
        ensures
            e@.wheels.len() == 0,
            e@.plug == ident_spec(),
            e@.starts.len() == 0,
            e.wf(),
    {
        proof {
            lemma_ident_ok();
        }
        Enigma { wheels: Vec::new(), plugboard: ident_table(), starts: Vec::new() }
    }

    /// One pass of a character through the plugboard table.
    pub fn apply_plugboard(&self, c: char) -> (r: char)
        requires
            plug_ok(self@.plug),
        ensures
            r == plug_spec(self@.plug, c),
            is_letter(c) ==> is_letter(r),
    {
        if is_alpha(c) {
            self.plugboard[pos_of(c)]
        } else {
            c
        }
    }

    /// Installs the plug pairs: seeds every letter to itself, then overwrites
    /// both directions for each pair.  Fails with `InvalidPlug`, leaving the
    /// engine unchanged, when a pair repeats a letter already assigned, pairs
    /// a letter with itself, or references a character outside the alphabet.
    pub fn setup_plugboard(&mut self, plugs: &Vec<(char, char)>) -> (r: Result<(), EnigmaError>)
        ensures
            r is Ok <==> plugs_valid(plugs@),
            r matches Err(e) ==> e == EnigmaError::InvalidPlug && final(self)@ == old(self)@,
            r is Ok ==> final(self)@ == (EngineV { plug: plug_of(plugs@), ..old(self)@ })
                && plug_ok(final(self)@.plug),
    {
        let n = plugs.len();
        let mut seen: Vec<bool> = Vec::new();
        for i in 0..26usize
            invariant
                seen@.len() == i,
                forall|k: int| 0 <= k < i ==> !(#[trigger] seen@[k]),
        {
            seen.push(false);
        }
        for k in 0..n
            invariant
                n == plugs@.len(),
                seen@.len() == 26,
                forall|k1: int|
                    0 <= k1 < k ==> is_letter((#[trigger] plugs@[k1]).0) && is_letter(
                        plugs@[k1].1,
                    ) && plugs@[k1].0 != plugs@[k1].1,
                forall|k1: int, k2: int|
                    0 <= k1 < k2 < k ==> !mentions(#[trigger] plugs@[k1], (#[trigger] plugs@[k2]).0)
                        && !mentions(plugs@[k1], plugs@[k2].1),
                forall|i: int|
                    0 <= i < 26 ==> (#[trigger] seen@[i] == exists|k1: int|
                        0 <= k1 < k && mentions(#[trigger] plugs@[k1], chr_spec(i))),
                self.wheels == old(self).wheels,
                self.plugboard == old(self).plugboard,
                self.starts == old(self).starts,
        {
            let (a, b) = (plugs[k].0, plugs[k].1);
            if !is_alpha(a) || !is_alpha(b) || a == b {
                return Err(EnigmaError::InvalidPlug);
            }
            let ia = pos_of(a);
            let ib = pos_of(b);
            if seen[ia] || seen[ib] {
                proof {
                    lemma_chr_pos(a);
                    lemma_chr_pos(b);
                }
                return Err(EnigmaError::InvalidPlug);
            }
            seen[ia] = true;
            seen[ib] = true;
            proof {
                lemma_chr_pos(a);
                lemma_chr_pos(b);
                assert forall|i: int| 0 <= i < 26 implies (#[trigger] seen@[i] == exists|k1: int|
                    0 <= k1 < k + 1 && mentions(#[trigger] plugs@[k1], chr_spec(i))) by {
                    if i == ia || i == ib {
                        assert(mentions(plugs@[k as int], chr_spec(i)));
                    } else {
                        lemma_pos_chr(i);
                        assert(!mentions(plugs@[k as int], chr_spec(i)));
                    }
                }
                assert forall|k1: int| 0 <= k1 < k implies !mentions(
                    #[trigger] plugs@[k1],
                    plugs@[k as int].0,
                ) && !mentions(plugs@[k1], plugs@[k as int].1) by {
                    if mentions(plugs@[k1], a) {
                        assert(exists|k2: int| 0 <= k2 < k && mentions(#[trigger] plugs@[k2], chr_spec(ia as int)));
                    }
                    if mentions(plugs@[k1], b) {
                        assert(exists|k2: int| 0 <= k2 < k && mentions(#[trigger] plugs@[k2], chr_spec(ib as int)));
                    }
                }
            }
        }
        self.plugboard = ident_table();
        proof {
            assert(plugs@.take(0) =~= Seq::<(char, char)>::empty());
        }
        for k in 0..n
            invariant
                n == plugs@.len(),
                plugs_valid(plugs@),
                self.plugboard@ == plug_of(plugs@.take(k as int)),
                self.wheels == old(self).wheels,
                self.starts == old(self).starts,
        {
            proof {
                lemma_plugs_valid_take(plugs@, k as int);
                lemma_plugs_valid_take(plugs@, k + 1);
                lemma_plug_of_len(plugs@.take(k as int));
                lemma_chr_pos(plugs@[k as int].0);
                lemma_chr_pos(plugs@[k as int].1);
            }
            let (a, b) = (plugs[k].0, plugs[k].1);
            let ia = pos_of(a);
            let ib = pos_of(b);
            self.plugboard[ia] = b;
            self.plugboard[ib] = a;
            proof {
                let t1 = plugs@.take(k + 1);
                assert(t1.drop_last() =~= plugs@.take(k as int));
                assert(t1.last() == plugs@[k as int]);
                assert(self.plugboard@ =~= plug_of(t1));
            }
        }
        proof {
            assert(plugs@.take(n as int) =~= plugs@);
            lemma_plug_of_ok(plugs@);
        }
        Ok(())
    }

    /// Advances the wheel stack by one position, exactly as happens before
    /// every routed letter.
    pub fn step_wheels(&mut self)
        requires
            old(self).wf(),
        ensures
            final(self)@ == (EngineV { wheels: step_spec(old(self)@.wheels), ..old(self)@ }),
            final(self).wf(),
    {
        let ghost orig: Seq<WheelV> = self@.wheels;
        let n = self.wheels.len();
        let mut carry = true;
        for i in 0..n
            invariant
                n == self.wheels@.len(),
                self.plugboard == old(self).plugboard,
                self.starts == old(self).starts,
                forall|k: int| 0 <= k < n ==> (#[trigger] self@.wheels[k]).wf(),
                step_from(orig, 0, true) == step_from(self@.wheels, i as int, carry),
                old(self).wf(),
                orig == old(self)@.wheels,
        {
            let ghost ws = self@.wheels;
            if !self.wheels[i].fixed {
                let anomaly = self.wheels[i].on_notch() && i + 1 < n && !self.wheels[i + 1].fixed;
                let advance = carry || anomaly;
                if advance {
                    let st = self.wheels[i].step;
                    let ns = if st + 1 < 26 { st + 1 } else { 0 };
                    self.wheels[i].step = ns;
                    proof {
                        assert(self@.wheels =~= ws.update(i as int, bump(ws[i as int])));
                    }
                }
                carry = (advance && self.wheels[i].on_notch()) || anomaly;
            }
        }
        proof {
            lemma_step_from_preserves(orig, 0, true);
            assert(final(self)@ =~= (EngineV { wheels: step_spec(old(self)@.wheels), ..old(self)@ }));
        }
    }

    /// Sends one letter through the machine: steps the stack, then routes the
    /// letter through plugboard, wheels, reflector, wheels and plugboard.
    /// Fails with `EmptyStack`, changing nothing, when no wheels are
    /// configured.
    pub fn send(&mut self, c: char) -> (r: Result<char, EnigmaError>)
        requires
            old(self).wf(),
            is_letter(c),
        ensures
            final(self).wf(),
            r is Ok <==> old(self)@.wheels.len() > 0,
            old(self)@.wheels.len() == 0 ==> r == Err::<char, EnigmaError>(EnigmaError::EmptyStack)
                && final(self)@ == old(self)@,
            old(self)@.wheels.len() > 0 ==> final(self)@ == send_spec(old(self)@, c).0 && r
                == Ok::<char, EnigmaError>(send_spec(old(self)@, c).1),
            r matches Ok(x) ==> is_letter(x),
    {
        if self.wheels.len() == 0 {
            return Err(EnigmaError::EmptyStack);
        }
        self.step_wheels();
        let ghost v1 = self@;
        let mut ch = self.apply_plugboard(c);
        let ghost c0 = ch;
        let n = self.wheels.len();
        for i in 0..n
            invariant
                n == self.wheels@.len(),
                self.wf(),
                is_letter(ch),
                ch == fwd_to(self@.wheels, i as int, c0),
                self@ == v1,
        {
            proof {
                assert(self.wheels@[i as int]@ == self@.wheels[i as int]);
            }
            ch = self.wheels[i].send_right(ch);
        }
        let mut j = n - 1;
        while j > 0
            invariant
                0 < n == self.wheels@.len(),
                j <= n - 1,
                self.wf(),
                is_letter(ch),
                ch == bwd_done(self@.wheels, j as int, fwd_to(self@.wheels, n as int, c0)),
                self@ == v1,
            decreases j,
        {
            j = j - 1;
            proof {
                assert(self.wheels@[j as int]@ == self@.wheels[j as int]);
            }
            ch = self.wheels[j].send_left(ch);
        }
        let out = self.apply_plugboard(ch);
        Ok(out)
    }

    /// Turns every non-fixed wheel back to offset zero.  The configured
    /// starting offsets are not re-applied; see `restore` for that.
    pub fn reset(&mut self)
        requires
            old(self).wf(),
        ensures
            final(self)@ == (EngineV { wheels: reset_spec(old(self)@.wheels), ..old(self)@ }),
            final(self).wf(),
    {
        let ghost orig: Seq<WheelV> = self@.wheels;
        let n = self.wheels.len();
        for i in 0..n
            invariant
                n == self.wheels@.len(),
                self.plugboard == old(self).plugboard,
                self.starts == old(self).starts,
                old(self).wf(),
                orig == old(self)@.wheels,
                orig.len() == n,
                forall|k: int| 0 <= k < i ==> self@.wheels[k] == reset_spec(orig)[k],
                forall|k: int| i <= k < n ==> self@.wheels[k] == orig[k],
        {
            if !self.wheels[i].fixed {
                let ghost ws = self@.wheels;
                self.wheels[i].step = 0;
                proof {
                    assert(self@.wheels =~= ws.update(
                        i as int,
                        (WheelV { step: 0, ..ws[i as int] }),
                    ));
                    assert(!orig[i as int].fixed);
                    assert(reset_spec(orig)[i as int] == zeroed(orig[i as int]));
                    assert(self@.wheels[i as int] == reset_spec(orig)[i as int]);
                }
            } else {
                proof {
                    assert(orig[i as int].fixed);
                    assert(self@.wheels[i as int] == reset_spec(orig)[i as int]);
                }
            }
        }
        proof {
            assert(final(self)@.wheels =~= reset_spec(old(self)@.wheels));
            assert(final(self)@ =~= (EngineV { wheels: reset_spec(old(self)@.wheels), ..old(self)@ }));
        }
    }

    /// Turns every non-fixed wheel back to its configured starting offset.
    pub fn restore(&mut self)
        requires
            old(self).wf(),
        ensures
            final(self)@ == (EngineV {
                wheels: restore_spec(old(self)@.wheels, old(self)@.starts),
                ..old(self)@
            }),
            final(self).wf(),
    {
        let ghost orig: Seq<WheelV> = self@.wheels;
        let n = self.wheels.len();
        for i in 0..n
            invariant
                n == self.wheels@.len(),
                n == self.starts@.len(),
                self.plugboard == old(self).plugboard,
                self.starts == old(self).starts,
                old(self).wf(),
                orig == old(self)@.wheels,
                orig.len() == n,
                old(self)@.starts.len() == n,
                forall|k: int|
                    0 <= k < i ==> self@.wheels[k] == restore_spec(orig, old(self)@.starts)[k],
                forall|k: int| i <= k < n ==> self@.wheels[k] == orig[k],
        {
            if !self.wheels[i].fixed {
                let st = self.starts[i];
                let ghost ws = self@.wheels;
                self.wheels[i].step = st;
                proof {
                    assert(self@.wheels =~= ws.update(
                        i as int,
                        (WheelV { step: st as int, ..ws[i as int] }),
                    ));
                    assert(!orig[i as int].fixed);
                    assert(st as int == old(self)@.starts[i as int]);
                    assert(self@.wheels[i as int] == restore_spec(orig, old(self)@.starts)[i as int]);
                }
            } else {
                proof {
                    assert(orig[i as int].fixed);
                    assert(self@.wheels[i as int] == restore_spec(orig, old(self)@.starts)[i as int]);
                }
            }
        }
        proof {
            assert(final(self)@.wheels =~= restore_spec(old(self)@.wheels, old(self)@.starts));
            assert(final(self)@ =~= (EngineV {
                wheels: restore_spec(old(self)@.wheels, old(self)@.starts),
                ..old(self)@
            }));
        }
    }

    /// The non-fixed wheels' offsets as a string of letters, in stack order.
    pub fn positions(&self) -> (s: String)
        requires
            self.wf(),
        ensures
            s@ == positions_spec(self@.wheels),
    {
        let mut s = String::new();
        let n = self.wheels.len();
        for i in 0..n
            invariant
                n == self.wheels@.len(),
                self.wf(),
                s@ == positions_spec(self@.wheels.take(i as int)),
        {
            let ghost t1 = self@.wheels.take(i + 1);
            proof {
                assert(t1.drop_last() =~= self@.wheels.take(i as int));
                assert(t1.last() == self@.wheels[i as int]);
            }
            if !self.wheels[i].fixed {
                let st = self.wheels[i].step;
                push_char(&mut s, chr_of(st));
            }
        }
        proof {
            assert(self@.wheels.take(n as int) =~= self@.wheels);
        }
        s
    }

    /// Encrypts one line: folds it to uppercase, routes every letter through
    /// the stepped machine, and passes every other character through
    /// untouched.  Fails with `EmptyStack`, changing nothing, when the text
    /// holds a letter but no wheels are configured.
    pub fn encrypt(&mut self, plain: &str) -> (r: Result<String, EnigmaError>)
        requires
            old(self).wf(),
        ensures
            final(self).wf(),
            r is Ok <==> (old(self)@.wheels.len() > 0 || !has_letter(plain@)),
            r matches Ok(s) ==> s@ == encrypt_from(old(self)@, plain@).1 && final(self)@
                == encrypt_from(old(self)@, plain@).0,
            r matches Err(e) ==> e == EnigmaError::EmptyStack && final(self)@ == old(self)@,
    {
        let mut result = String::new();
        let n = plain.unicode_len();
        for i in 0..n
            invariant
                n == plain@.len(),
                self.wf(),
                old(self).wf(),
                result@ == encrypt_from(old(self)@, plain@.take(i as int)).1,
                self@ == encrypt_from(old(self)@, plain@.take(i as int)).0,
                self@.wheels.len() == old(self)@.wheels.len(),
                forall|k: int|
                    0 <= k < i ==> !is_letter(upper_spec(plain@[k])) || old(self)@.wheels.len()
                        > 0,
                old(self)@.wheels.len() == 0 ==> self@ == old(self)@,
        {
            let ghost t1 = plain@.take(i + 1);
            proof {
                assert(t1 =~= plain@.take(i as int).push(plain@[i as int]));
                lemma_encrypt_snoc(old(self)@, plain@.take(i as int), plain@[i as int]);
            }
            let c = to_upper(plain.get_char(i));
            if is_alpha(c) {
                match self.send(c) {
                    Ok(x) => push_char(&mut result, x),
                    Err(e) => {
                        proof {
                            assert(is_letter(upper_spec(plain@[i as int])));
                            assert(has_letter(plain@));
                        }
                        return Err(e);
                    },
                }
            } else {
                push_char(&mut result, c);
            }
        }
        proof {
            assert(plain@.take(n as int) =~= plain@);
            if old(self)@.wheels.len() == 0 {
                assert forall|k: int|
                    0 <= k < plain@.len() implies !is_letter(upper_spec(plain@[k])) by {}
            }
        }
        Ok(result)
    }

    /// Builds an engine from a rotor list and a plug list: each wheel is
    /// looked up in the catalog and set to its starting offset, in order,
    /// then the plugboard is installed.  A fixed wheel (a reflector) is
    /// accepted only at offset zero.  Fails with the first offending
    /// entry's error, the rotor list being checked before the plugs.
    pub fn configure(configs: &Vec<RotorConfig>, plugs: &Vec<(char, char)>) -> (r: Result<
        Enigma,
        EnigmaError,
    >)
        ensures
            r is Ok <==> (forall|k: int|
                0 <= k < configs@.len() ==> config_ok(#[trigger] configs@[k]@)) && plugs_valid(
                plugs@,
            ),
            r matches Ok(e) ==> {
                &&& e.wf()
                &&& e@.wheels.len() == configs@.len()
                &&& forall|k: int|
                    0 <= k < configs@.len() ==> e@.wheels[k] == wheel_of_config(
                        #[trigger] configs@[k]@,
                    )
                &&& e@.plug == plug_of(plugs@)
                &&& e@.starts.len() == configs@.len()
                &&& forall|k: int|
                    0 <= k < configs@.len() ==> e@.starts[k] == (#[trigger] configs@[k]@).position
            },
            r matches Err(err) ==> (exists|k: int|
                0 <= k < configs@.len() && !config_ok(#[trigger] configs@[k]@) && err
                    == config_err(configs@[k]@) && (forall|k2: int|
                    0 <= k2 < k ==> config_ok(#[trigger] configs@[k2]@))) || (err
                == EnigmaError::InvalidPlug && !plugs_valid(plugs@) && forall|k: int|
                0 <= k < configs@.len() ==> config_ok(#[trigger] configs@[k]@)),
    {
        let mut e = Enigma::new();
        let n = configs.len();
        for k in 0..n
            invariant
                n == configs@.len(),
                e@.plug == ident_spec(),
                e.wf(),
                e@.wheels.len() == k,
                e@.starts.len() == k,
                forall|k2: int| 0 <= k2 < k ==> config_ok(#[trigger] configs@[k2]@),
                forall|k2: int|
                    0 <= k2 < k ==> e@.wheels[k2] == wheel_of_config(#[trigger] configs@[k2]@),
                forall|k2: int| 0 <= k2 < k ==> e@.starts[k2] == (#[trigger] configs@[k2]@).position,
        {
            let cfg = &configs[k];
            let looked = Wheel::by_name(cfg.name.as_str());
            match looked {
                Ok(mut w) => {
                    if cfg.position >= 26 || (w.fixed && cfg.position != 0) {
                        proof {
                            assert(!config_ok(configs@[k as int]@) && config_err(
                                configs@[k as int]@,
                            ) == EnigmaError::InvalidPosition);
                        }
                        return Err(EnigmaError::InvalidPosition);
                    }
                    w.step = cfg.position;
                    let ghost ws = e@.wheels;
                    let ghost ss = e@.starts;
                    e.wheels.push(w);
                    e.starts.push(cfg.position);
                    proof {
                        assert(e@.wheels =~= ws.push(w@));
                        assert(e@.starts =~= ss.push(cfg.position as int));
                        assert(w@ =~= wheel_of_config(configs@[k as int]@));
                    }
                },
                Err(err) => {
                    proof {
                        assert(!config_ok(configs@[k as int]@) && err == config_err(
                            configs@[k as int]@,
                        ));
                    }
                    return Err(err);
                },
            }
        }
        match e.setup_plugboard(plugs) {
            Ok(_) => Ok(e),
            Err(err) => Err(err),
        }
    }
}

/// A wheel advanced by one position, wrapping around the alphabet.
pub open spec fn bump(w: WheelV) -> WheelV {
    WheelV { step: if w.step + 1 < 26 { w.step + 1 } else { 0 }, ..w }
}

/// The odometer, processed from wheel `i` onward with the given carry.
/// A wheel advances when the carry reaches it, or when it stands on one of
/// its notch letters with a movable wheel after it (the double-stepping
/// anomaly: such a wheel steps itself and pushes its neighbour in the same
/// cycle).  The carry moves on when the wheel advanced onto a notch or stood
/// on one; no wheel ever advances more than once per cycle.  Fixed wheels
/// are skipped entirely.
pub open spec fn step_from(ws: Seq<WheelV>, i: int, carry: bool) -> Seq<WheelV>
    decreases ws.len() - i,
{
    if i < 0 || i >= ws.len() {
        ws
    } else if ws[i].fixed {
        step_from(ws, i + 1, carry)
    } else {
        let anomaly = ws[i].on_notch() && i + 1 < ws.len() && !ws[i + 1].fixed;
        let advance = carry || anomaly;
        let ws1 = if advance {
            ws.update(i, bump(ws[i]))
        } else {
            ws
        };
        let c1 = (advance && ws1[i].on_notch()) || anomaly;
        step_from(ws1, i + 1, c1)
    }
}

/// One advance of the whole stack, as it happens before every routed letter.
pub open spec fn step_spec(ws: Seq<WheelV>) -> Seq<WheelV> {
    step_from(ws, 0, true)
}

/// Stepping never touches a wheel's identity, wiring, notches or fixedness,
/// keeps every offset inside the alphabet, leaves fixed wheels alone, and
/// leaves wheels before the processing point alone.
pub proof fn lemma_step_from_preserves(ws: Seq<WheelV>, i: int, carry: bool)
    ensures
        step_from(ws, i, carry).len() == ws.len(),
        forall|k: int|
            0 <= k < ws.len() ==> {
                let w2 = #[trigger] step_from(ws, i, carry)[k];
                &&& w2.name == ws[k].name
                &&& w2.wiring == ws[k].wiring
                &&& w2.notch == ws[k].notch
                &&& w2.fixed == ws[k].fixed
                &&& (ws[k].fixed ==> w2 == ws[k])
                &&& (k < i ==> w2 == ws[k])
                &&& (0 <= ws[k].step < 26 ==> 0 <= w2.step < 26)
            },
    decreases ws.len() - i,
{
    if i < 0 || i >= ws.len() {
    } else if ws[i].fixed {
        lemma_step_from_preserves(ws, i + 1, carry);
    } else {
        let anomaly = ws[i].on_notch() && i + 1 < ws.len() && !ws[i + 1].fixed;
        let advance = carry || anomaly;
        let ws1 = if advance {
            ws.update(i, bump(ws[i]))
        } else {
            ws
        };
        let c1 = (advance && ws1[i].on_notch()) || anomaly;
        lemma_step_from_preserves(ws1, i + 1, c1);
    }
}

/// Stepping keeps every wheel well formed.
pub proof fn lemma_step_spec_wf(ws: Seq<WheelV>)
    requires
        forall|k: int| 0 <= k < ws.len() ==> (#[trigger] ws[k]).wf(),
    ensures
        step_spec(ws).len() == ws.len(),
        forall|k: int| 0 <= k < ws.len() ==> (#[trigger] step_spec(ws)[k]).wf(),
{
    lemma_step_from_preserves(ws, 0, true);
}

/// The letter coming out after the forward walk through wheels `0..i`.
pub open spec fn fwd_to(ws: Seq<WheelV>, i: int, c: char) -> char
    decreases i,
{
    if i <= 0 {
        c
    } else {
        crate::wheel::send_right_spec(ws[i - 1], fwd_to(ws, i - 1, c))
    }
}

/// The letter coming out after the backward walk through wheels
/// `len-2, ..., j` (the wheel at `j` applied last).
pub open spec fn bwd_done(ws: Seq<WheelV>, j: int, c: char) -> char
    decreases ws.len() - j,
{
    if j >= ws.len() - 1 {
        c
    } else {
        crate::wheel::send_left_spec(ws[j], bwd_done(ws, j + 1, c))
    }
}

/// The full signal path of one letter at a fixed stack snapshot: plugboard,
/// forward through every wheel (the last being the reflector), backward
/// through the rest, plugboard again.
pub open spec fn route_spec(v: EngineV, c: char) -> char {
    plug_spec(
        v.plug,
        bwd_done(v.wheels, 0, fwd_to(v.wheels, v.wheels.len() as int, plug_spec(v.plug, c))),
    )
}

/// One letter sent through the machine: the stack advances first, then the
/// letter is routed at the new snapshot.
pub open spec fn send_spec(v: EngineV, c: char) -> (EngineV, char) {
    let v1 = EngineV { wheels: step_spec(v.wheels), plug: v.plug, starts: v.starts };
    (v1, route_spec(v1, c))
}

/// A wheel turned back to offset zero.
pub open spec fn zeroed(w: WheelV) -> WheelV {
    WheelV { step: 0, ..w }
}

/// The stack with every non-fixed wheel turned back to offset zero.
pub open spec fn reset_spec(ws: Seq<WheelV>) -> Seq<WheelV> {
    Seq::new(
        ws.len(),
        |k: int|
            if ws[k].fixed {
                ws[k]
            } else {
                zeroed(ws[k])
            },
    )
}

/// The stack with every non-fixed wheel turned back to its configured start.
pub open spec fn restore_spec(ws: Seq<WheelV>, starts: Seq<int>) -> Seq<WheelV> {
    Seq::new(
        ws.len(),
        |k: int|
            if ws[k].fixed {
                ws[k]
            } else {
                WheelV { step: starts[k], ..ws[k] }
            },
    )
}

/// The non-fixed wheels' offsets rendered as letters, in stack order.
pub open spec fn positions_spec(ws: Seq<WheelV>) -> Seq<char>
    decreases ws.len(),
{
    if ws.len() == 0 {
        Seq::empty()
    } else if ws.last().fixed {
        positions_spec(ws.drop_last())
    } else {
        positions_spec(ws.drop_last()).push(chr_spec(ws.last().step))
    }
}

/// A whole line of text sent through the machine: each character is folded
/// to uppercase; letters advance the stack and are routed, everything else
/// passes through untouched, with no stepping.
pub open spec fn encrypt_from(v: EngineV, text: Seq<char>) -> (EngineV, Seq<char>)
    decreases text.len(),
{
    if text.len() == 0 {
        (v, Seq::empty())
    } else {
        let c = upper_spec(text[0]);
        if is_letter(c) {
            let sv = send_spec(v, c);
            let rest = encrypt_from(sv.0, text.drop_first());
            (rest.0, seq![sv.1] + rest.1)
        } else {
            let rest = encrypt_from(v, text.drop_first());
            (rest.0, seq![c] + rest.1)
        }
    }
}

/// Whether some character of the text folds to a letter (and so would need
/// routing).
pub open spec fn has_letter(text: Seq<char>) -> bool {
    exists|i: int| 0 <= i < text.len() && is_letter(upper_spec(text[i]))
}

/// Unfolding one trailing character of an encryption.
pub proof fn lemma_encrypt_snoc(v: EngineV, text: Seq<char>, c: char)
    ensures
        encrypt_from(v, text.push(c)) == ({
            let e = encrypt_from(v, text);
            let u = upper_spec(c);
            if is_letter(u) {
                let sv = send_spec(e.0, u);
                (sv.0, e.1.push(sv.1))
            } else {
                (e.0, e.1.push(u))
            }
        }),
    decreases text.len(),
{
    let u = upper_spec(c);
    let lhs = encrypt_from(v, text.push(c));
    let e0 = encrypt_from(v, text);
    if text.len() == 0 {
        assert(text.push(c)[0] == c);
        assert(text.push(c).drop_first() =~= Seq::<char>::empty());
        if is_letter(u) {
            let sv = send_spec(v, u);
            let rest = encrypt_from(sv.0, text.push(c).drop_first());
            assert(rest == encrypt_from(sv.0, Seq::<char>::empty()));
            assert(rest.0 == sv.0 && rest.1 == Seq::<char>::empty());
            assert(lhs.0 == sv.0);
            assert(lhs.1 == seq![sv.1] + rest.1);
            assert(seq![sv.1] + Seq::<char>::empty() =~= Seq::<char>::empty().push(sv.1));
            assert(lhs =~= (sv.0, e0.1.push(sv.1)));
        } else {
            let rest = encrypt_from(v, text.push(c).drop_first());
            assert(rest == encrypt_from(v, Seq::<char>::empty()));
            assert(seq![u] + Seq::<char>::empty() =~= Seq::<char>::empty().push(u));
            assert(lhs =~= (e0.0, e0.1.push(u)));
        }
    } else {
        let h = upper_spec(text[0]);
        assert(text.push(c)[0] == text[0]);
        assert(text.push(c).drop_first() =~= text.drop_first().push(c));
        if is_letter(h) {
            let sv0 = send_spec(v, h);
            lemma_encrypt_snoc(sv0.0, text.drop_first(), c);
            let e = encrypt_from(sv0.0, text.drop_first());
            if is_letter(u) {
                let sv = send_spec(e.0, u);
                assert(seq![sv0.1] + e.1.push(sv.1) =~= (seq![sv0.1] + e.1).push(sv.1));
                assert(lhs =~= (sv.0, e0.1.push(sv.1)));
            } else {
                assert(seq![sv0.1] + e.1.push(u) =~= (seq![sv0.1] + e.1).push(u));
                assert(lhs =~= (e0.0, e0.1.push(u)));
            }
        } else {
            lemma_encrypt_snoc(v, text.drop_first(), c);
            let e = encrypt_from(v, text.drop_first());
            if is_letter(u) {
                let sv = send_spec(e.0, u);
                assert(seq![h] + e.1.push(sv.1) =~= (seq![h] + e.1).push(sv.1));
                assert(lhs =~= (sv.0, e0.1.push(sv.1)));
            } else {
                assert(seq![h] + e.1.push(u) =~= (seq![h] + e.1).push(u));
                assert(lhs =~= (e0.0, e0.1.push(u)));
            }
        }
    }
}

/// The wheel a configuration entry asks for, at its starting offset.
pub open spec fn wheel_of_config(c: RotorConfigV) -> WheelV {
    WheelV {
        name: c.name,
        wiring: catalog_spec(c.name).0,
        notch: catalog_spec(c.name).1,
        step: c.position,
        fixed: catalog_spec(c.name).2,
    }
}

/// Whether a configuration entry can be honoured: a known catalog name and
/// an offset inside the alphabet, with a fixed wheel (a reflector) only
/// ever at offset zero.
pub open spec fn config_ok(c: RotorConfigV) -> bool {
    &&& catalog_has(c.name)
    &&& 0 <= c.position < 26
    &&& catalog_spec(c.name).2 ==> c.position == 0
}

/// The error a bad configuration entry draws.
pub open spec fn config_err(c: RotorConfigV) -> EnigmaError {
    if !catalog_has(c.name) {
        EnigmaError::UnknownRotor
    } else {
        EnigmaError::InvalidPosition
    }
}

/// Restricting a valid pair list to any prefix keeps it valid.
pub proof fn lemma_plugs_valid_take(ps: Seq<(char, char)>, n: int)
    requires
        plugs_valid(ps),
        0 <= n <= ps.len(),
    ensures
        plugs_valid(ps.take(n)),
{
}

} // verus!
