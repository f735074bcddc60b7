//! The properties the machine guarantees, proved once and for all: the
//! signal path is a bijection of the alphabet at every snapshot, the whole
//! cipher is its own inverse when run twice from the same offsets, the
//! odometer advances exactly as specified, and the plugboard swaps exactly
//! its configured pairs.

use vstd::prelude::*;

use crate::engine::{
    bump, bwd_done, encrypt_from, fwd_to, has_letter, lemma_plug_of_pair, lemma_plug_of_unpaired,
    lemma_step_from_preserves, lemma_step_spec_wf, mentions, plug_of, plug_ok, plug_spec,
    plugs_valid, route_spec, send_spec, step_from, step_spec, EngineV,
};
use crate::letters::{chr_spec, is_letter, lemma_chr_pos, lemma_pos_chr, pos_spec, upper_spec};
use crate::wheel::{
    lemma_index_of_in_range, lemma_index_of_unique, send_left_spec, send_right_spec, wrap_add,
    wrap_sub, WheelV,
};

verus! {

/// A wiring is an involution when following it twice from any position leads
/// back to that position.  Historical reflectors are wired this way.
pub open spec fn involutory(w: Seq<char>) -> bool {
    forall|i: int| 0 <= i < 26 ==> w[pos_spec(#[trigger] w[i])] == chr_spec(i)
}

/// The plugboard pass is an involution on characters and keeps letters.
pub proof fn lemma_plug_twice(p: Seq<char>, c: char)
    requires
        plug_ok(p),
    ensures
        is_letter(c) ==> is_letter(plug_spec(p, c)),
        plug_spec(p, plug_spec(p, c)) == c,
{
    if is_letter(c) {
        lemma_chr_pos(c);
    }
}

/// The plugboard pass never sends two characters to the same place.
pub proof fn lemma_plug_inj(p: Seq<char>, c1: char, c2: char)
    requires
        plug_ok(p),
        c1 != c2,
    ensures
        plug_spec(p, c1) != plug_spec(p, c2),
{
    lemma_plug_twice(p, c1);
    lemma_plug_twice(p, c2);
}

/// The two wheel transforms undo one another at any fixed offset.
pub proof fn lemma_send_lr_inverse(w: WheelV, c: char)
    requires
        w.wf(),
        is_letter(c),
    ensures
        is_letter(send_right_spec(w, c)),
        is_letter(send_left_spec(w, c)),
        send_left_spec(w, send_right_spec(w, c)) == c,
        send_right_spec(w, send_left_spec(w, c)) == c,
{
    let p = pos_spec(c);
    lemma_chr_pos(c);
    let r = send_right_spec(w, c);
    lemma_index_of_unique(w.wiring, r, wrap_add(p, w.step));
    lemma_pos_chr(wrap_sub(w.wiring.index_of(r), w.step));
    let q = w.wiring.index_of(c);
    lemma_index_of_in_range(w.wiring, c);
    lemma_pos_chr(wrap_sub(q, w.step));
}

/// The forward wheel transform never sends two letters to the same place.
pub proof fn lemma_send_right_inj(w: WheelV, c1: char, c2: char)
    requires
        w.wf(),
        is_letter(c1),
        is_letter(c2),
        c1 != c2,
    ensures
        send_right_spec(w, c1) != send_right_spec(w, c2),
{
    lemma_send_lr_inverse(w, c1);
    lemma_send_lr_inverse(w, c2);
}

/// The backward wheel transform never sends two letters to the same place.
pub proof fn lemma_send_left_inj(w: WheelV, c1: char, c2: char)
    requires
        w.wf(),
        is_letter(c1),
        is_letter(c2),
        c1 != c2,
    ensures
        send_left_spec(w, c1) != send_left_spec(w, c2),
{
    lemma_send_lr_inverse(w, c1);
    lemma_send_lr_inverse(w, c2);
}

/// The forward walk keeps letters and never merges two of them.
pub proof fn lemma_fwd_inj(ws: Seq<WheelV>, i: int, c1: char, c2: char)
    requires
        forall|k: int| 0 <= k < ws.len() ==> (#[trigger] ws[k]).wf(),
        0 <= i <= ws.len(),
        is_letter(c1),
        is_letter(c2),
        c1 != c2,
    ensures
        is_letter(fwd_to(ws, i, c1)),
        is_letter(fwd_to(ws, i, c2)),
        fwd_to(ws, i, c1) != fwd_to(ws, i, c2),
    decreases i,
{
    if i > 0 {
        lemma_fwd_inj(ws, i - 1, c1, c2);
        lemma_send_lr_inverse(ws[i - 1], fwd_to(ws, i - 1, c1));
        lemma_send_lr_inverse(ws[i - 1], fwd_to(ws, i - 1, c2));
        lemma_send_right_inj(ws[i - 1], fwd_to(ws, i - 1, c1), fwd_to(ws, i - 1, c2));
    }
}

/// The backward walk keeps letters and never merges two of them.
pub proof fn lemma_bwd_inj(ws: Seq<WheelV>, j: int, c1: char, c2: char)
    requires
        forall|k: int| 0 <= k < ws.len() ==> (#[trigger] ws[k]).wf(),
        0 <= j,
        is_letter(c1),
        is_letter(c2),
        c1 != c2,
    ensures
        is_letter(bwd_done(ws, j, c1)),
        is_letter(bwd_done(ws, j, c2)),
        bwd_done(ws, j, c1) != bwd_done(ws, j, c2),
    decreases ws.len() - j,
{
    if j < ws.len() - 1 {
        lemma_bwd_inj(ws, j + 1, c1, c2);
        lemma_send_left_inj(ws[j], bwd_done(ws, j + 1, c1), bwd_done(ws, j + 1, c2));
        lemma_send_lr_inverse(ws[j], bwd_done(ws, j + 1, c1));
        lemma_send_lr_inverse(ws[j], bwd_done(ws, j + 1, c2));
    }
}

/// The full signal path is a bijection over the alphabet at any fixed
/// snapshot: it produces letters, and no two distinct letters come out the
/// same.
pub proof fn lemma_route_bijective(v: EngineV, c1: char, c2: char)
    requires
        v.wf(),
        is_letter(c1),
        is_letter(c2),
        c1 != c2,
    ensures
        is_letter(route_spec(v, c1)),
        is_letter(route_spec(v, c2)),
        route_spec(v, c1) != route_spec(v, c2),
{
    let n = v.wheels.len() as int;
    lemma_plug_twice(v.plug, c1);
    lemma_plug_twice(v.plug, c2);
    lemma_plug_inj(v.plug, c1, c2);
    lemma_fwd_inj(v.wheels, n, plug_spec(v.plug, c1), plug_spec(v.plug, c2));
    lemma_bwd_inj(v.wheels, 0, fwd_to(v.wheels, n, plug_spec(v.plug, c1)), fwd_to(v.wheels, n, plug_spec(v.plug, c2)));
    lemma_plug_inj(
        v.plug,
        bwd_done(v.wheels, 0, fwd_to(v.wheels, n, plug_spec(v.plug, c1))),
        bwd_done(v.wheels, 0, fwd_to(v.wheels, n, plug_spec(v.plug, c2))),
    );
    lemma_plug_twice(v.plug, bwd_done(v.wheels, 0, fwd_to(v.wheels, n, plug_spec(v.plug, c1))));
    lemma_plug_twice(v.plug, bwd_done(v.wheels, 0, fwd_to(v.wheels, n, plug_spec(v.plug, c2))));
}

/// The forward walk over the wheels before the reflector, anchored at its
/// starting index: wheel `i` is applied first, wheel `len - 2` last.
pub open spec fn fwd_mid(ws: Seq<WheelV>, i: int, c: char) -> char
    decreases ws.len() - i,
{
    if i >= ws.len() - 1 {
        c
    } else {
        fwd_mid(ws, i + 1, send_right_spec(ws[i], c))
    }
}

/// Both forward walks over the pre-reflector wheels agree.
pub proof fn lemma_mid_fwd_to(ws: Seq<WheelV>, j: int, c: char)
    requires
        0 <= j <= ws.len() - 1,
    ensures
        fwd_mid(ws, j, fwd_to(ws, j, c)) == fwd_to(ws, ws.len() - 1, c),
    decreases ws.len() - j,
{
    if j < ws.len() - 1 {
        lemma_mid_fwd_to(ws, j + 1, c);
    }
}

/// The backward walk undoes the forward walk over the pre-reflector wheels.
pub proof fn lemma_bwd_of_fwd(ws: Seq<WheelV>, j: int, c: char)
    requires
        forall|k: int| 0 <= k < ws.len() ==> (#[trigger] ws[k]).wf(),
        0 <= j,
        is_letter(c),
    ensures
        is_letter(fwd_mid(ws, j, c)),
        bwd_done(ws, j, fwd_mid(ws, j, c)) == c,
    decreases ws.len() - j,
{
    if j < ws.len() - 1 {
        lemma_send_lr_inverse(ws[j], c);
        lemma_bwd_of_fwd(ws, j + 1, send_right_spec(ws[j], c));
    }
}

/// The forward walk undoes the backward walk over the pre-reflector wheels.
pub proof fn lemma_fwd_of_bwd(ws: Seq<WheelV>, j: int, c: char)
    requires
        forall|k: int| 0 <= k < ws.len() ==> (#[trigger] ws[k]).wf(),
        0 <= j,
        is_letter(c),
    ensures
        is_letter(bwd_done(ws, j, c)),
        fwd_mid(ws, j, bwd_done(ws, j, c)) == c,
    decreases ws.len() - j,
{
    if j < ws.len() - 1 {
        lemma_fwd_of_bwd(ws, j + 1, c);
        lemma_send_lr_inverse(ws[j], bwd_done(ws, j + 1, c));
    }
}

/// Passing twice through an involutory reflector standing at offset zero
/// leads back to the entry letter.
pub proof fn lemma_reflect_twice(w: WheelV, c: char)
    requires
        w.wf(),
        w.step == 0,
        involutory(w.wiring),
        is_letter(c),
    ensures
        is_letter(send_right_spec(w, c)),
        send_right_spec(w, send_right_spec(w, c)) == c,
{
    lemma_chr_pos(c);
    let r = send_right_spec(w, c);
    lemma_chr_pos(r);
}

/// An engine whose last wheel is a fixed, involutory reflector standing at
/// offset zero: the shape under which the cipher is its own inverse.
pub open spec fn reciprocal_ready(v: EngineV) -> bool {
    &&& v.wf()
    &&& v.wheels.len() >= 1
    &&& v.wheels[v.wheels.len() - 1].fixed
    &&& v.wheels[v.wheels.len() - 1].step == 0
    &&& involutory(v.wheels[v.wheels.len() - 1].wiring)
}

/// Stepping the stack keeps the reciprocal shape: the reflector is fixed and
/// so never moves, and no wiring changes.
pub proof fn lemma_step_keeps_ready(v: EngineV)
    requires
        reciprocal_ready(v),
    ensures
        forall|c: char| reciprocal_ready((#[trigger] send_spec(v, c)).0),
{
    lemma_step_from_preserves(v.wheels, 0, true);
}

/// At a reciprocal-ready snapshot the signal path is its own inverse.
pub proof fn lemma_route_self_inverse(v: EngineV, c: char)
    requires
        reciprocal_ready(v),
        is_letter(c),
    ensures
        is_letter(route_spec(v, c)),
        route_spec(v, route_spec(v, c)) == c,
{
    let ws = v.wheels;
    let n = ws.len() as int;
    let refl = ws[n - 1];
    let p1 = plug_spec(v.plug, c);
    lemma_plug_twice(v.plug, c);
    lemma_mid_fwd_to(ws, 0, p1);
    lemma_bwd_of_fwd(ws, 0, p1);
    let a = fwd_mid(ws, 0, p1);
    lemma_reflect_twice(refl, a);
    let b = send_right_spec(refl, a);
    assert(fwd_to(ws, n, p1) == b);
    lemma_fwd_of_bwd(ws, 0, b);
    let d = bwd_done(ws, 0, b);
    assert(route_spec(v, c) == plug_spec(v.plug, d));
    lemma_plug_twice(v.plug, d);
    let p2 = plug_spec(v.plug, plug_spec(v.plug, d));
    assert(p2 == d);
    lemma_mid_fwd_to(ws, 0, d);
    assert(fwd_to(ws, n - 1, d) == fwd_mid(ws, 0, d));
    assert(fwd_mid(ws, 0, d) == b);
    assert(fwd_to(ws, n, d) == send_right_spec(refl, b));
    assert(send_right_spec(refl, b) == a);
    lemma_bwd_of_fwd(ws, 0, p1);
    assert(bwd_done(ws, 0, a) == p1);
    lemma_plug_twice(v.plug, p1);
}

/// Folding to uppercase is idempotent.
pub proof fn lemma_upper_idempotent(c: char)
    ensures
        upper_spec(upper_spec(c)) == upper_spec(c),
{
}

/// Run from one snapshot, encrypting an encryption gives the uppercase
/// folding of the original text back, and leaves the machine in the same
/// final state both times.  The snapshot must be reciprocal-ready, and the
/// second run must start from the same offsets as the first.
pub proof fn lemma_encrypt_reciprocal(v: EngineV, text: Seq<char>)
    requires
        reciprocal_ready(v),
    ensures
        encrypt_from(v, encrypt_from(v, text).1).1 == text.map_values(|c: char| upper_spec(c)),
        encrypt_from(v, encrypt_from(v, text).1).0 == encrypt_from(v, text).0,
    decreases text.len(),
{
    let folded = text.map_values(|c: char| upper_spec(c));
    if text.len() == 0 {
        assert(encrypt_from(v, text).1 =~= Seq::<char>::empty());
        assert(folded =~= Seq::<char>::empty());
    } else {
        let c = text[0];
        let u = upper_spec(c);
        let rest = text.drop_first();
        let first = encrypt_from(v, text);
        if is_letter(u) {
            let sv = send_spec(v, u);
            lemma_step_keeps_ready(v);
            lemma_route_self_inverse(sv.0, u);
            let out0 = sv.1;
            assert(out0 == route_spec(sv.0, u));
            let r1 = encrypt_from(sv.0, rest);
            assert(first.1 == seq![out0] + r1.1);
            assert(first.1[0] == out0);
            assert(first.1.drop_first() =~= r1.1);
            assert(upper_spec(out0) == out0);
            assert(first.1.len() > 0);
            let sv2 = send_spec(v, out0);
            assert(sv2.0 == sv.0);
            assert(route_spec(sv.0, out0) == u);
            lemma_encrypt_reciprocal(sv.0, rest);
            let second = encrypt_from(v, first.1);
            assert(second.1 == seq![u] + encrypt_from(sv.0, r1.1).1);
            assert(encrypt_from(sv.0, r1.1).1 == rest.map_values(|ch: char| upper_spec(ch)));
            assert(folded =~= seq![u] + rest.map_values(|ch: char| upper_spec(ch)));
        } else {
            assert(upper_spec(u) == u);
            let r1 = encrypt_from(v, rest);
            assert(first.1 == seq![u] + r1.1);
            assert(first.1[0] == u);
            assert(first.1.drop_first() =~= r1.1);
            lemma_encrypt_reciprocal(v, rest);
            let second = encrypt_from(v, first.1);
            assert(second.1 == seq![u] + encrypt_from(v, r1.1).1);
            assert(folded =~= seq![u] + rest.map_values(|ch: char| upper_spec(ch)));
        }
    }
}

/// The forward walk keeps letters.
proof fn lemma_fwd_letter(ws: Seq<WheelV>, i: int, c: char)
    requires
        forall|k: int| 0 <= k < ws.len() ==> (#[trigger] ws[k]).wf(),
        0 <= i <= ws.len(),
        is_letter(c),
    ensures
        is_letter(fwd_to(ws, i, c)),
    decreases i,
{
    if i > 0 {
        lemma_fwd_letter(ws, i - 1, c);
        lemma_send_lr_inverse(ws[i - 1], fwd_to(ws, i - 1, c));
    }
}

/// The backward walk keeps letters.
proof fn lemma_bwd_letter(ws: Seq<WheelV>, j: int, c: char)
    requires
        forall|k: int| 0 <= k < ws.len() ==> (#[trigger] ws[k]).wf(),
        0 <= j,
        is_letter(c),
    ensures
        is_letter(bwd_done(ws, j, c)),
    decreases ws.len() - j,
{
    if j < ws.len() - 1 {
        lemma_bwd_letter(ws, j + 1, c);
        lemma_send_lr_inverse(ws[j], bwd_done(ws, j + 1, c));
    }
}

/// The signal path turns a letter into a letter.
pub proof fn lemma_route_letter(v: EngineV, c: char)
    requires
        v.wf(),
        is_letter(c),
    ensures
        is_letter(route_spec(v, c)),
{
    let n = v.wheels.len() as int;
    lemma_plug_twice(v.plug, c);
    lemma_fwd_letter(v.wheels, n, plug_spec(v.plug, c));
    lemma_bwd_letter(v.wheels, 0, fwd_to(v.wheels, n, plug_spec(v.plug, c)));
    lemma_plug_twice(v.plug, bwd_done(v.wheels, 0, fwd_to(v.wheels, n, plug_spec(v.plug, c))));
}

/// Sending a letter keeps the engine well formed.
proof fn lemma_send_wf(v: EngineV, c: char)
    requires
        v.wf(),
    ensures
        send_spec(v, c).0.wf(),
{
    lemma_step_spec_wf(v.wheels);
}

/// Every character of a line keeps its place: the output is exactly as long
/// as the input, a character that folds to a non-letter comes through
/// unchanged at its position, and a letter comes out as a cipher letter.
pub proof fn lemma_encrypt_shape(v: EngineV, text: Seq<char>)
    requires
        v.wf(),
    ensures
        encrypt_from(v, text).1.len() == text.len(),
        forall|i: int|
            0 <= i < text.len() && !is_letter(upper_spec(#[trigger] text[i]))
                ==> encrypt_from(v, text).1[i] == upper_spec(text[i]),
        forall|i: int|
            0 <= i < text.len() && is_letter(upper_spec(#[trigger] text[i])) ==> is_letter(
                encrypt_from(v, text).1[i],
            ),
        encrypt_from(v, text).0.wf(),
        encrypt_from(v, text).0.plug == v.plug,
        encrypt_from(v, text).0.starts == v.starts,
        encrypt_from(v, text).0.wheels.len() == v.wheels.len(),
    decreases text.len(),
{
    if text.len() > 0 {
        let u = upper_spec(text[0]);
        let rest = text.drop_first();
        let out = encrypt_from(v, text).1;
        if is_letter(u) {
            let sv = send_spec(v, u);
            lemma_send_wf(v, u);
            lemma_route_letter(sv.0, u);
            lemma_encrypt_shape(sv.0, rest);
            assert(out == seq![sv.1] + encrypt_from(sv.0, rest).1);
        } else {
            lemma_encrypt_shape(v, rest);
            assert(out == seq![u] + encrypt_from(v, rest).1);
        }
        assert forall|i: int| 1 <= i < text.len() implies upper_spec(#[trigger] text[i])
            == upper_spec(rest[i - 1]) by {
            assert(rest[i - 1] == text[i]);
        }
    }
}

/// A text without letters passes through entirely unciphered, and the
/// machine does not move.
pub proof fn lemma_passthrough(v: EngineV, text: Seq<char>)
    requires
        !has_letter(text),
    ensures
        encrypt_from(v, text).0 == v,
        encrypt_from(v, text).1 == text.map_values(|c: char| upper_spec(c)),
    decreases text.len(),
{
    let folded = text.map_values(|c: char| upper_spec(c));
    if text.len() == 0 {
        assert(folded =~= Seq::<char>::empty());
    } else {
        assert(!is_letter(upper_spec(text[0])));
        assert(forall|i: int|
            0 <= i < text.drop_first().len() ==> !is_letter(upper_spec(
                #[trigger] text.drop_first()[i],
            )));
        lemma_passthrough(v, text.drop_first());
        assert(folded =~= seq![upper_spec(text[0])] + text.drop_first().map_values(
            |c: char| upper_spec(c),
        ));
    }
}

/// The odometer at rest: from index `i` on, with no carry pending and no
/// non-fixed wheel standing on a notch, nothing moves.
pub proof fn lemma_step_from_quiet(ws: Seq<WheelV>, i: int)
    requires
        forall|k: int|
            i <= k < ws.len() && !(#[trigger] ws[k]).fixed ==> !ws[k].on_notch(),
    ensures
        step_from(ws, i, false) == ws,
    decreases ws.len() - i,
{
    if 0 <= i < ws.len() {
        lemma_step_from_quiet(ws, i + 1);
    } else if i < 0 {
    }
}

/// Ordinary stepping: when no wheel stands on a notch and the first wheel
/// does not land on one either, only the first wheel advances, by one.
pub proof fn lemma_step_quiet(ws: Seq<WheelV>)
    requires
        ws.len() >= 1,
        !ws[0].fixed,
        !ws[0].on_notch(),
        !bump(ws[0]).on_notch(),
        forall|k: int| 1 <= k < ws.len() && !(#[trigger] ws[k]).fixed ==> !ws[k].on_notch(),
    ensures
        step_spec(ws) == ws.update(0, bump(ws[0])),
    decreases ws.len(),
{
    let ws1 = ws.update(0, bump(ws[0]));
    assert forall|k: int|
        1 <= k < ws1.len() && !(#[trigger] ws1[k]).fixed implies !ws1[k].on_notch() by {
        assert(ws1[k] == ws[k]);
    }
    lemma_step_from_quiet(ws1, 1);
}

/// The double-stepping anomaly: a middle wheel standing on its notch
/// advances itself and pushes the wheel after it in the same cycle, even
/// though no carry reached it.  Shown on a three-wheel stack closed by a
/// fixed reflector.
pub proof fn lemma_step_double_step(ws: Seq<WheelV>)
    requires
        ws.len() == 4,
        !ws[0].fixed,
        !ws[1].fixed,
        !ws[2].fixed,
        ws[3].fixed,
        !ws[0].on_notch(),
        !bump(ws[0]).on_notch(),
        ws[1].on_notch(),
    ensures
        step_spec(ws) == ws.update(0, bump(ws[0])).update(1, bump(ws[1])).update(2, bump(ws[2])),
{
    let ws1 = ws.update(0, bump(ws[0]));
    let ws2 = ws1.update(1, bump(ws1[1]));
    let ws3 = ws2.update(2, bump(ws2[2]));
    assert(ws3 =~= ws.update(0, bump(ws[0])).update(1, bump(ws[1])).update(2, bump(ws[2])));
    assert(step_spec(ws) == step_from(ws1, 1, false));
    assert(step_from(ws1, 1, false) == step_from(ws2, 2, true));
    assert(step_from(ws2, 2, true) == step_from(ws3, 3, ws3[2].on_notch()));
    assert(step_from(ws3, 3, ws3[2].on_notch()) == step_from(ws3, 4, ws3[2].on_notch()));
    assert(step_from(ws3, 4, ws3[2].on_notch()) == ws3);
}

/// A carried wheel that lands on its notch hands the carry on, so its
/// neighbour advances exactly once in that cycle, not twice.
pub proof fn lemma_step_landing_kick(ws: Seq<WheelV>)
    requires
        ws.len() == 4,
        !ws[0].fixed,
        !ws[1].fixed,
        !ws[2].fixed,
        ws[3].fixed,
        !ws[0].on_notch(),
        bump(ws[0]).on_notch(),
        !ws[1].on_notch(),
        !bump(ws[1]).on_notch(),
        !ws[2].on_notch(),
    ensures
        step_spec(ws) == ws.update(0, bump(ws[0])).update(1, bump(ws[1])),
{
    let ws1 = ws.update(0, bump(ws[0]));
    let ws2 = ws1.update(1, bump(ws1[1]));
    assert(ws2 =~= ws.update(0, bump(ws[0])).update(1, bump(ws[1])));
    assert(step_spec(ws) == step_from(ws1, 1, true));
    assert(step_from(ws1, 1, true) == step_from(ws2, 2, false));
    assert(step_from(ws2, 2, false) == step_from(ws2, 3, false));
    assert(step_from(ws2, 3, false) == step_from(ws2, 4, false));
    assert(step_from(ws2, 4, false) == ws2);
}

/// A configured plug pair swaps its two letters on a raw plugboard pass.
pub proof fn lemma_plugboard_symmetry(ps: Seq<(char, char)>, k: int)
    requires
        plugs_valid(ps),
        0 <= k < ps.len(),
    ensures
        plug_spec(plug_of(ps), ps[k].0) == ps[k].1,
        plug_spec(plug_of(ps), ps[k].1) == ps[k].0,
{
    lemma_plug_of_pair(ps, k);
}

/// A letter outside every configured pair is fixed by a raw plugboard pass.
pub proof fn lemma_plugboard_untouched(ps: Seq<(char, char)>, c: char)
    requires
        plugs_valid(ps),
        is_letter(c),
        forall|k: int| 0 <= k < ps.len() ==> !mentions(#[trigger] ps[k], c),
    ensures
        plug_spec(plug_of(ps), c) == c,
{
    lemma_plug_of_unpaired(ps, c);
}

} // verus!
