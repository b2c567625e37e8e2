use vstd::prelude::*;
use crate::archive::{Archive, Node, ResolutionError};
use crate::cache::ImageCache;
use crate::map::frames_ok;
use crate::sprite::{interval_of, numbered, Sprite, SpriteAnimation};
use crate::timer::fresh;

verus! {

/// A button: one animation per state.
pub struct Button {
    pub disabled: SpriteAnimation,
    pub mouse_over: SpriteAnimation,
    pub normal: SpriteAnimation,
    pub pressed: SpriteAnimation,
}

/// A box laid out by flex rules; it holds nothing yet.
pub struct FlexView {}

/// A state child that is there and whose frames all read as sprites.
pub open spec fn state_ok(a: Archive, n: int, name: Seq<char>) -> bool {
    a.child(n, name) matches Some(c) && frames_ok(a, c as int)
}

/// An animation read from the state child `name`: one frame per numbered
/// child, timed by their delays.
pub open spec fn state_of(an: SpriteAnimation, a: Archive, n: int, name: Seq<char>) -> bool {
    &&& an.wf()
    &&& a.child(n, name) matches Some(c) && an.frames@.len() == numbered(a, c as int).len()
    &&& an.timer.state() == fresh(an.frames@.map_values(|s: Sprite| interval_of(s.delay)))
}

fn state(a: &Archive, cache: &mut ImageCache, n: Node, name: &str) -> (r: Result<SpriteAnimation, ResolutionError>)
    requires
        a.wf(),
        a.valid(n),
    ensures
        old(cache).keys().is_prefix_of(final(cache).keys()),
        a.child(n.id as int, name@) is None ==> r == Err::<SpriteAnimation, ResolutionError>(ResolutionError::NotFound),
        r is Ok <==> state_ok(*a, n.id as int, name@),
        r matches Ok(an) ==> state_of(an, *a, n.id as int, name@),
{
    match n.try_get(a, name) {
        Some(c) => SpriteAnimation::from(a, cache, c),
        None => Err(ResolutionError::NotFound),
    }
}

impl Button {
    /// Reads the four states `disabled`, `mouseOver`, `normal`, `pressed`.
    pub fn from(a: &Archive, cache: &mut ImageCache, n: Node) -> (r: Result<Button, ResolutionError>)
        requires
            a.wf(),
            a.valid(n),
        ensures
            old(cache).keys().is_prefix_of(final(cache).keys()),
            r is Ok <==> state_ok(*a, n.id as int, "disabled"@) && state_ok(*a, n.id as int, "mouseOver"@)
                && state_ok(*a, n.id as int, "normal"@) && state_ok(*a, n.id as int, "pressed"@),
            r matches Ok(b) ==> state_of(b.disabled, *a, n.id as int, "disabled"@) && state_of(
                b.mouse_over,
                *a,
                n.id as int,
                "mouseOver"@,
            ) && state_of(b.normal, *a, n.id as int, "normal"@) && state_of(b.pressed, *a, n.id as int, "pressed"@),
    {
        let disabled = match state(a, cache, n, "disabled") {
            Ok(s) => s,
            Err(e) => return Err(e),
        };
        let mouse_over = match state(a, cache, n, "mouseOver") {
            Ok(s) => s,
            Err(e) => return Err(e),
        };
        let normal = match state(a, cache, n, "normal") {
            Ok(s) => s,
            Err(e) => return Err(e),
        };
        let pressed = match state(a, cache, n, "pressed") {
            Ok(s) => s,
            Err(e) => return Err(e),
        };
        Ok(Button { disabled, mouse_over, normal, pressed })
    }
}

} // verus!
