//! The thumbstick mapper: in "keys" mode the stick's axes press and
//! release direction keys past a dead zone and its buttons send bound
//! keys; in "gamepad" mode the axes are rescaled to a gamepad's range and
//! the buttons become gamepad buttons.

use crate::config::Thumbstick;
use crate::keys::{output_key, output_name_code, KeyError};
use crate::text::same_text;
use vstd::prelude::*;

verus! {

broadcast use vstd::string::group_string_axioms;

/// The stick's raw resting value.
pub const RAW_CENTER: i32 = 128;
/// The stick's raw travel from rest to either end.
pub const RAW_HALF: i32 = 127;
/// The smallest gamepad axis value.
pub const OUT_MIN: i32 = -32768;
/// The largest gamepad axis value.
pub const OUT_MAX: i32 = 32767;

/// Absolute axis codes.
pub const ABS_X: u16 = 0x00;
pub const ABS_Y: u16 = 0x01;

/// Button codes of the stick and of the gamepad it stands in for.
pub const BTN_THUMB: u16 = 0x121;
pub const BTN_THUMB2: u16 = 0x122;
pub const BTN_BASE: u16 = 0x126;
pub const BTN_BASE2: u16 = 0x127;
pub const BTN_SOUTH: u16 = 0x130;
pub const BTN_EAST: u16 = 0x131;
pub const BTN_NORTH: u16 = 0x133;
pub const BTN_WEST: u16 = 0x134;
pub const BTN_TL: u16 = 0x136;
pub const BTN_TR: u16 = 0x137;
pub const BTN_SELECT: u16 = 0x13a;
pub const BTN_START: u16 = 0x13b;
pub const BTN_THUMBL: u16 = 0x13d;
pub const BTN_THUMBR: u16 = 0x13e;

/// The codes of the buttons that the emulated gamepad declares.
pub open spec fn gamepad_codes() -> Seq<u16> {
    seq![
        BTN_SOUTH,
        BTN_EAST,
        BTN_NORTH,
        BTN_WEST,
        BTN_TL,
        BTN_TR,
        BTN_SELECT,
        BTN_START,
        BTN_THUMBL,
        BTN_THUMBR,
    ]
}

/// The buttons that the emulated gamepad declares.
pub fn gamepad_buttons() -> (v: Vec<u16>)
    ensures
        v@ == gamepad_codes(),
        v@ == seq![
            BTN_SOUTH,
            BTN_EAST,
            BTN_NORTH,
            BTN_WEST,
            BTN_TL,
            BTN_TR,
            BTN_SELECT,
            BTN_START,
            BTN_THUMBL,
            BTN_THUMBR,
        ],
{
    let v = vec![
        BTN_SOUTH,
        BTN_EAST,
        BTN_NORTH,
        BTN_WEST,
        BTN_TL,
        BTN_TR,
        BTN_SELECT,
        BTN_START,
        BTN_THUMBL,
        BTN_THUMBR,
    ];
    assert(v@ =~= seq![
        BTN_SOUTH,
        BTN_EAST,
        BTN_NORTH,
        BTN_WEST,
        BTN_TL,
        BTN_TR,
        BTN_SELECT,
        BTN_START,
        BTN_THUMBL,
        BTN_THUMBR,
    ]);
    v
}

/// Integer division rounding toward zero, as Rust's `/` does.
pub open spec fn trunc_div(x: int, d: int) -> int {
    if x >= 0 {
        x / d
    } else {
        -((-x) / d)
    }
}

/// The gamepad axis value for raw stick value `raw` with dead zone `dz`:
/// zero inside the dead zone, else the offset from rest scaled by
/// 32767/127 (rounded toward zero), clamped to the axis range, and negated
/// when the axis is inverted.
pub open spec fn scale_of(raw: int, dz: int, invert: bool) -> int {
    let c = raw - 128;
    let a = if (if c < 0 {
        -c
    } else {
        c
    }) <= dz {
        0
    } else {
        c
    };
    let q = trunc_div(a * 32767, 127);
    let s = if q < -32768 {
        -32768
    } else if q > 32767 {
        32767
    } else {
        q
    };
    if invert {
        -s
    } else {
        s
    }
}

/// Law: the gamepad axis value is 0 inside the dead zone, lies within the
/// axis range -32768..=32767 (negated when the axis is inverted), and
/// never points against the stick's offset from rest.
pub proof fn lemma_scale_bounds(raw: int, dz: int, invert: bool)
    ensures
        ({
            let c = raw - 128;
            let v = scale_of(raw, dz, invert);
            let plain = if invert {
                -v
            } else {
                v
            };
            &&& (if c < 0 {
                -c
            } else {
                c
            }) <= dz ==> v == 0
            &&& -32768 <= plain <= 32767
            &&& c >= 0 ==> plain >= 0
            &&& c <= 0 ==> plain <= 0
        }),
{
}

/// Law: outside the configured dead zone the axis responds: the value
/// (before inversion) has the sign of the stick's offset from rest and at
/// least 258 times its size, up to the end of the axis range; inverting
/// the axis negates the value; and the size of the dead zone matters only
/// in deciding whether the stick is inside it.
pub proof fn lemma_scale_outside_dead_zone(raw: int, dz: int, dz2: int, invert: bool)
    ensures
        ({
            let c = raw - 128;
            let m = if c < 0 {
                -c
            } else {
                c
            };
            let v = scale_of(raw, dz, false);
            &&& m > dz ==> (c > 0 ==> v >= (if 258 * c < 32767 {
                258 * c
            } else {
                32767
            })) && (c < 0 ==> v <= (if 258 * c > -32768 {
                258 * c
            } else {
                -32768
            }))
            &&& m > dz && m > dz2 ==> scale_of(raw, dz2, invert) == scale_of(raw, dz, invert)
            &&& scale_of(raw, dz, true) == -v
        }),
{
    let c = raw - 128;
    if c > 0 {
        assert(trunc_div(c * 32767, 127) >= 258 * c) by (nonlinear_arith)
            requires
                c > 0,
        ;
    }
    if c < 0 {
        assert(trunc_div(c * 32767, 127) <= 258 * c) by (nonlinear_arith)
            requires
                c < 0,
        ;
    }
}

/// Whether `scale` can compute the axis value for raw value `raw` with
/// dead zone `dz` in `i32`: the offset from rest and its magnitude fit,
/// and outside the dead zone the offset times 32767 fits.
pub open spec fn scale_defined(raw: int, dz: int) -> bool {
    let c = raw - 128;
    &&& c > i32::MIN
    &&& ((if c < 0 {
        -c
    } else {
        c
    }) <= dz || -65538 <= c <= 65538)
}

/// Whether `axis_keys` can compare raw value `raw` with dead zone `dz` in
/// `i32`: the offset from rest and the negated dead zone fit.
pub open spec fn axis_defined(raw: int, dz: int) -> bool {
    raw - 128 >= i32::MIN && dz > i32::MIN
}

/// Scales a raw stick value to the gamepad axis range.
pub fn scale(raw: i32, deadzone: i32, invert: bool) -> (v: i32)
    requires
        scale_defined(raw as int, deadzone as int),
    ensures
        v == scale_of(raw as int, deadzone as int, invert),
{
    let c = raw - RAW_CENTER;
    let mag = if c < 0 {
        -c
    } else {
        c
    };
    let a = if mag <= deadzone {
        0
    } else {
        c
    };
    assert(-2147483648 <= a * 32767 <= 2147483647) by (nonlinear_arith)
        requires
            -65538 <= a <= 65538,
    ;
    let p = a * OUT_MAX;
    let q = p / RAW_HALF;
    assert(q == trunc_div(p as int, 127));
    let s = if q < OUT_MIN {
        OUT_MIN
    } else if q > OUT_MAX {
        OUT_MAX
    } else {
        q
    };
    if invert {
        -s
    } else {
        s
    }
}


/// An event the thumbstick mapper emits.
#[derive(Debug, PartialEq, Eq, Structural, Clone, Copy)]
pub enum StickEvent {
    /// A key event: code and value (1 press, 0 release, 2 repeat).
    Key(u16, i32),
    /// An absolute axis event: axis code and value.
    Abs(u16, i32),
}

/// Whether the negative (`true`) and positive (`false`) ends are wanted
/// for raw value `raw` with dead zone `dz`: past the dead zone on that side.
pub open spec fn wants(raw: int, dz: int) -> (bool, bool) {
    let c = raw - 128;
    (c < -dz, c > dz)
}

/// The key events one axis emits for raw value `raw` when its low key is
/// `low_on` and its high key `high_on`: the low key is wanted past the
/// dead zone on the negative side (the positive side when the axis is
/// inverted), the high key on the other side, and each key whose state
/// changes emits 1 for pressed and 0 for released.
pub open spec fn axis_events(
    raw: int,
    dz: int,
    invert: bool,
    low: u16,
    high: u16,
    low_on: bool,
    high_on: bool,
) -> (bool, bool, Seq<StickEvent>) {
    let (wn, wp) = wants(raw, dz);
    let (wl, wh) = if invert {
        (wp, wn)
    } else {
        (wn, wp)
    };
    let e1: Seq<StickEvent> = if wl != low_on {
        seq![StickEvent::Key(low, if wl { 1i32 } else { 0i32 })]
    } else {
        Seq::empty()
    };
    let e2: Seq<StickEvent> = if wh != high_on {
        seq![StickEvent::Key(high, if wh { 1i32 } else { 0i32 })]
    } else {
        Seq::empty()
    };
    (wl, wh, e1 + e2)
}

/// Updates one axis's key states for raw value `raw`, appending the key
/// events that the change brings to `batch`.
pub fn axis_keys(
    raw: i32,
    deadzone: i32,
    invert: bool,
    low: u16,
    high: u16,
    low_on: &mut bool,
    high_on: &mut bool,
    batch: &mut Vec<StickEvent>,
)
    requires
        axis_defined(raw as int, deadzone as int),
    ensures
        ({
            let (wl, wh, evs) = axis_events(
                raw as int,
                deadzone as int,
                invert,
                low,
                high,
                *old(low_on),
                *old(high_on),
            );
            &&& *final(low_on) == wl
            &&& *final(high_on) == wh
            &&& final(batch)@ == old(batch)@ + evs
        }),
{
    let c = raw - RAW_CENTER;
    let wn = c < -deadzone;
    let wp = c > deadzone;
    let (wl, wh) = if invert {
        (wp, wn)
    } else {
        (wn, wp)
    };
    let ghost b0 = batch@;
    let ghost l0 = *low_on;
    let ghost h0 = *high_on;
    if wl != *low_on {
        *low_on = wl;
        batch.push(StickEvent::Key(low, if wl { 1 } else { 0 }));
    }
    if wh != *high_on {
        *high_on = wh;
        batch.push(StickEvent::Key(high, if wh { 1 } else { 0 }));
    }
    assert(batch@ =~= b0 + axis_events(raw as int, deadzone as int, invert, low, high, l0, h0).2);
}

/// Law: inverting an axis mirrors it: the inverted axis at raw value `raw`
/// behaves as the plain axis at the value mirrored about rest, so pushing
/// the stick to the negative side presses the high key.
pub proof fn lemma_invert_mirrors(
    raw: int,
    dz: int,
    low: u16,
    high: u16,
    low_on: bool,
    high_on: bool,
)
    ensures
        axis_events(raw, dz, true, low, high, low_on, high_on) == axis_events(
            256 - raw,
            dz,
            false,
            low,
            high,
            low_on,
            high_on,
        ),
        dz >= 0 && raw - 128 < -dz ==> axis_events(raw, dz, true, low, high, false, false).2 == seq![
            StickEvent::Key(high, 1i32),
        ],
        dz >= 0 && raw - 128 > dz ==> axis_events(raw, dz, true, low, high, false, false).2 == seq![
            StickEvent::Key(low, 1i32),
        ],
{
    let evs = axis_events(raw, dz, true, low, high, false, false).2;
    if dz >= 0 && raw - 128 < -dz {
        assert(evs =~= seq![StickEvent::Key(high, 1i32)]);
    }
    if dz >= 0 && raw - 128 > dz {
        assert(evs =~= seq![StickEvent::Key(low, 1i32)]);
    }
}

/// Law: with a dead zone that is not negative, an axis never holds both of
/// its keys at once.
pub proof fn lemma_axis_exclusive(
    raw: int,
    dz: int,
    invert: bool,
    low: u16,
    high: u16,
    low_on: bool,
    high_on: bool,
)
    requires
        dz >= 0,
    ensures
        !(axis_events(raw, dz, invert, low, high, low_on, high_on).0 && axis_events(
            raw,
            dz,
            invert,
            low,
            high,
            low_on,
            high_on,
        ).1),
{
}

/// Law: the key states that an axis reaches depend on the raw value alone,
/// not on the states before; feeding the same value again emits nothing.
pub proof fn lemma_axis_idempotent(
    raw: int,
    dz: int,
    invert: bool,
    low: u16,
    high: u16,
    low_on: bool,
    high_on: bool,
)
    ensures
        ({
            let (l1, h1, _) = axis_events(raw, dz, invert, low, high, low_on, high_on);
            let (l2, h2, e2) = axis_events(raw, dz, invert, low, high, l1, h1);
            l2 == l1 && h2 == h1 && e2 == Seq::<StickEvent>::empty()
        }),
{
    let (l1, h1, _) = axis_events(raw, dz, invert, low, high, low_on, high_on);
    assert(axis_events(raw, dz, invert, low, high, l1, h1).2 =~= Seq::<StickEvent>::empty());
}

/// Law: bringing the stick back within the dead zone releases whatever the
/// axis held and holds nothing: it emits one release for each key that was
/// held and nothing else.
pub proof fn lemma_rest_releases(
    raw: int,
    dz: int,
    invert: bool,
    low: u16,
    high: u16,
    low_on: bool,
    high_on: bool,
)
    requires
        -dz <= raw - 128 <= dz,
    ensures
        ({
            let (l, h, evs) = axis_events(raw, dz, invert, low, high, low_on, high_on);
            &&& !l && !h
            &&& evs.len() == (if low_on { 1int } else { 0int }) + (if high_on { 1int } else { 0int })
            &&& forall|i: int| 0 <= i < evs.len() ==> (#[trigger] evs[i]) matches StickEvent::Key(_, 0i32)
        }),
{
}

/// The keys of the thumbstick in "keys" mode, resolved.
pub struct StickKeys {
    pub up: u16,
    pub down: u16,
    pub left: u16,
    pub right: u16,
    pub thumb: Option<u16>,
    pub button1: Option<u16>,
    pub button2: Option<u16>,
}

/// The code of an optional binding: none when the name is empty.
pub open spec fn optional_key(name: Seq<char>) -> Result<Option<u16>, KeyError> {
    if name.len() == 0 {
        Ok(None)
    } else {
        match output_name_code(name) {
            Ok(k) => Ok(Some(k)),
            Err(e) => Err(e),
        }
    }
}

/// The thumbstick's keys resolved in the order up, down, left, right,
/// thumb, button 1, button 2; the first name that does not resolve gives
/// the error.
pub open spec fn stick_keys_of(t: Thumbstick) -> Result<StickKeys, KeyError> {
    match output_name_code(t.up@) {
        Err(e) => Err(e),
        Ok(up) => match output_name_code(t.down@) {
            Err(e) => Err(e),
            Ok(down) => match output_name_code(t.left@) {
                Err(e) => Err(e),
                Ok(left) => match output_name_code(t.right@) {
                    Err(e) => Err(e),
                    Ok(right) => match optional_key(t.thumb@) {
                        Err(e) => Err(e),
                        Ok(thumb) => match optional_key(t.button1@) {
                            Err(e) => Err(e),
                            Ok(button1) => match optional_key(t.button2@) {
                                Err(e) => Err(e),
                                Ok(button2) => Ok(
                                    StickKeys { up, down, left, right, thumb, button1, button2 },
                                ),
                            },
                        },
                    },
                },
            },
        },
    }
}

fn optional_output_key(name: &String) -> (r: Result<Option<u16>, KeyError>)
    ensures
        r == optional_key(name@),
{
    if name.as_str().is_empty() {
        Ok(None)
    } else {
        match output_key(name.as_str()) {
            Ok(k) => Ok(Some(k)),
            Err(e) => Err(e),
        }
    }
}

/// The key that the optional binding `name` resolves to, none when it is
/// empty (or does not resolve).
pub open spec fn binding_key(name: Seq<char>) -> Option<u16> {
    match optional_key(name) {
        Ok(k) => k,
        Err(_) => None,
    }
}

/// Law: the stick's keys come from its settings: each direction key is the
/// key its own setting names, and so is each button's.
pub proof fn lemma_stick_keys_follow_settings(t: Thumbstick, k: StickKeys)
    requires
        stick_keys_of(t) == Ok::<StickKeys, KeyError>(k),
    ensures
        output_name_code(t.up@) == Ok::<u16, KeyError>(k.up),
        output_name_code(t.down@) == Ok::<u16, KeyError>(k.down),
        output_name_code(t.left@) == Ok::<u16, KeyError>(k.left),
        output_name_code(t.right@) == Ok::<u16, KeyError>(k.right),
        k.thumb == binding_key(t.thumb@),
        k.button1 == binding_key(t.button1@),
        k.button2 == binding_key(t.button2@),
{
}

/// The thumbstick mapper's settings and state.
pub struct StickMap {
    /// "keys" mode (any mode but "gamepad"), else gamepad mode.
    pub keys_mode: bool,
    pub deadzone: i32,
    pub invert_x: bool,
    pub invert_y: bool,
    pub keys: StickKeys,
    pub up_on: bool,
    pub down_on: bool,
    pub left_on: bool,
    pub right_on: bool,
}

impl StickMap {
    /// The mapper for the thumbstick settings `cfg`, with no key held.
    pub fn new(cfg: &Thumbstick) -> (r: Result<StickMap, KeyError>)
        ensures
            match r {
                Ok(s) => {
                    &&& stick_keys_of(*cfg) == Ok::<StickKeys, KeyError>(s.keys)
                    &&& s.keys_mode == (cfg.mode@ != "gamepad"@)
                    &&& s.deadzone == cfg.deadzone
                    &&& s.invert_x == cfg.invert_x
                    &&& s.invert_y == cfg.invert_y
                    &&& !s.up_on && !s.down_on && !s.left_on && !s.right_on
                },
                Err(e) => stick_keys_of(*cfg) == Err::<StickKeys, KeyError>(e),
            },
    {
        let keys_mode = !same_text(cfg.mode.as_str(), "gamepad");
        let up = match output_key(cfg.up.as_str()) {
            Ok(k) => k,
            Err(e) => return Err(e),
        };
        let down = match output_key(cfg.down.as_str()) {
            Ok(k) => k,
            Err(e) => return Err(e),
        };
        let left = match output_key(cfg.left.as_str()) {
            Ok(k) => k,
            Err(e) => return Err(e),
        };
        let right = match output_key(cfg.right.as_str()) {
            Ok(k) => k,
            Err(e) => return Err(e),
        };
        let thumb = match optional_output_key(&cfg.thumb) {
            Ok(k) => k,
            Err(e) => return Err(e),
        };
        let button1 = match optional_output_key(&cfg.button1) {
            Ok(k) => k,
            Err(e) => return Err(e),
        };
        let button2 = match optional_output_key(&cfg.button2) {
            Ok(k) => k,
            Err(e) => return Err(e),
        };
        Ok(
            StickMap {
                keys_mode,
                deadzone: cfg.deadzone,
                invert_x: cfg.invert_x,
                invert_y: cfg.invert_y,
                keys: StickKeys { up, down, left, right, thumb, button1, button2 },
                up_on: false,
                down_on: false,
                left_on: false,
                right_on: false,
            },
        )
    }

    /// The output keys to declare in "keys" mode: the four directions and
    /// the bound buttons.
    pub fn declared_keys(&self) -> (v: Vec<u16>)
        ensures
            v@ == seq![self.keys.up, self.keys.down, self.keys.left, self.keys.right] + (
            match self.keys.thumb {
                Some(k) => seq![k],
                None => Seq::empty(),
            }) + (match self.keys.button1 {
                Some(k) => seq![k],
                None => Seq::empty(),
            }) + (match self.keys.button2 {
                Some(k) => seq![k],
                None => Seq::empty(),
            }),
    {
        let mut v = vec![self.keys.up, self.keys.down, self.keys.left, self.keys.right];
        let ghost v0 = v@;
        if let Some(k) = self.keys.thumb {
            v.push(k);
        }
        let ghost v1 = v@;
        if let Some(k) = self.keys.button1 {
            v.push(k);
        }
        let ghost v2 = v@;
        if let Some(k) = self.keys.button2 {
            v.push(k);
        }
        assert(v@ =~= seq![self.keys.up, self.keys.down, self.keys.left, self.keys.right] + (
        match self.keys.thumb {
            Some(k) => seq![k],
            None => Seq::<u16>::empty(),
        }) + (match self.keys.button1 {
            Some(k) => seq![k],
            None => Seq::<u16>::empty(),
        }) + (match self.keys.button2 {
            Some(k) => seq![k],
            None => Seq::<u16>::empty(),
        }));
        v
    }

    /// Handles an absolute axis event of the stick, appending what it
    /// maps to.
    pub fn handle_abs(&mut self, axis: u16, value: i32, batch: &mut Vec<StickEvent>)
        requires
            axis == ABS_X || axis == ABS_Y ==> if old(self).keys_mode {
                axis_defined(value as int, old(self).deadzone as int)
            } else {
                scale_defined(value as int, old(self).deadzone as int)
            },
        ensures
            final(self).keys_mode == old(self).keys_mode,
            final(self).deadzone == old(self).deadzone,
            final(self).invert_x == old(self).invert_x,
            final(self).invert_y == old(self).invert_y,
            final(self).keys == old(self).keys,
            if old(self).keys_mode {
                if axis == ABS_Y {
                    let (u, d, evs) = axis_events(
                        value as int,
                        old(self).deadzone as int,
                        old(self).invert_y,
                        old(self).keys.up,
                        old(self).keys.down,
                        old(self).up_on,
                        old(self).down_on,
                    );
                    &&& final(self).up_on == u && final(self).down_on == d
                    &&& final(self).left_on == old(self).left_on
                    &&& final(self).right_on == old(self).right_on
                    &&& final(batch)@ == old(batch)@ + evs
                } else if axis == ABS_X {
                    let (l, r, evs) = axis_events(
                        value as int,
                        old(self).deadzone as int,
                        old(self).invert_x,
                        old(self).keys.left,
                        old(self).keys.right,
                        old(self).left_on,
                        old(self).right_on,
                    );
                    &&& final(self).left_on == l && final(self).right_on == r
                    &&& final(self).up_on == old(self).up_on
                    &&& final(self).down_on == old(self).down_on
                    &&& final(batch)@ == old(batch)@ + evs
                } else {
                    &&& final(self).up_on == old(self).up_on
                    &&& final(self).down_on == old(self).down_on
                    &&& final(self).left_on == old(self).left_on
                    &&& final(self).right_on == old(self).right_on
                    &&& final(batch)@ == old(batch)@
                }
            } else {
                &&& final(self).up_on == old(self).up_on
                &&& final(self).down_on == old(self).down_on
                &&& final(self).left_on == old(self).left_on
                &&& final(self).right_on == old(self).right_on
                &&& final(batch)@ == if axis == ABS_X {
                    old(batch)@.push(
                        StickEvent::Abs(
                            ABS_X,
                            scale_of(value as int, old(self).deadzone as int, old(self).invert_x)
                                as i32,
                        ),
                    )
                } else if axis == ABS_Y {
                    old(batch)@.push(
                        StickEvent::Abs(
                            ABS_Y,
                            scale_of(value as int, old(self).deadzone as int, old(self).invert_y)
                                as i32,
                        ),
                    )
                } else {
                    old(batch)@
                }
            },
    {
        if self.keys_mode {
            if axis == ABS_Y {
                let (mut u, mut d) = (self.up_on, self.down_on);
                axis_keys(
                    value,
                    self.deadzone,
                    self.invert_y,
                    self.keys.up,
                    self.keys.down,
                    &mut u,
                    &mut d,
                    batch,
                );
                self.up_on = u;
                self.down_on = d;
            } else if axis == ABS_X {
                let (mut l, mut r) = (self.left_on, self.right_on);
                axis_keys(
                    value,
                    self.deadzone,
                    self.invert_x,
                    self.keys.left,
                    self.keys.right,
                    &mut l,
                    &mut r,
                    batch,
                );
                self.left_on = l;
                self.right_on = r;
            }
        } else if axis == ABS_X {
            let v = scale(value, self.deadzone, self.invert_x);
            batch.push(StickEvent::Abs(ABS_X, v));
        } else if axis == ABS_Y {
            let v = scale(value, self.deadzone, self.invert_y);
            batch.push(StickEvent::Abs(ABS_Y, v));
        }
    }

    /// The key that a stick button sends: in "keys" mode the bound key of
    /// the thumb press and the two buttons, in gamepad mode the gamepad
    /// button it stands for.
    pub open spec fn button_target(&self, code: u16) -> Option<u16> {
        if self.keys_mode {
            if code == BTN_THUMB {
                self.keys.thumb
            } else if code == BTN_BASE {
                self.keys.button1
            } else if code == BTN_BASE2 {
                self.keys.button2
            } else {
                None
            }
        } else {
            if code == BTN_THUMB {
                Some(BTN_SOUTH)
            } else if code == BTN_THUMB2 {
                Some(BTN_EAST)
            } else if code == BTN_BASE {
                Some(BTN_TL)
            } else if code == BTN_BASE2 {
                Some(BTN_TR)
            } else {
                None
            }
        }
    }

    /// Law: in keys mode the stick press sends the thumb binding, the button
    /// left of the stick the first button's binding and the one below it
    /// the second button's, and no other button sends anything; in gamepad
    /// mode the four buttons send four different gamepad buttons, all of
    /// them among those the gamepad declares.
    pub proof fn lemma_buttons_send_their_bindings(&self)
        ensures
            self.keys_mode ==> {
                &&& self.button_target(BTN_THUMB) == self.keys.thumb
                &&& self.button_target(BTN_BASE) == self.keys.button1
                &&& self.button_target(BTN_BASE2) == self.keys.button2
                &&& forall|c: u16|
                    c != BTN_THUMB && c != BTN_BASE && c != BTN_BASE2 ==> #[trigger] self.button_target(c)
                        is None
            },
            !self.keys_mode ==> {
                &&& self.button_target(BTN_THUMB) is Some
                &&& self.button_target(BTN_THUMB2) is Some
                &&& self.button_target(BTN_BASE) is Some
                &&& self.button_target(BTN_BASE2) is Some
                &&& self.button_target(BTN_THUMB) != self.button_target(BTN_THUMB2)
                &&& self.button_target(BTN_THUMB) != self.button_target(BTN_BASE)
                &&& self.button_target(BTN_THUMB) != self.button_target(BTN_BASE2)
                &&& self.button_target(BTN_THUMB2) != self.button_target(BTN_BASE)
                &&& self.button_target(BTN_THUMB2) != self.button_target(BTN_BASE2)
                &&& self.button_target(BTN_BASE) != self.button_target(BTN_BASE2)
                &&& forall|c: u16| #[trigger] self.button_target(c) matches Some(b) ==> gamepad_codes().contains(b)
            },
    {
    }

    /// Handles a key event of the stick's buttons, appending the key event
    /// it maps to, if any (with the same value).
    pub fn handle_key(&self, code: u16, value: i32, batch: &mut Vec<StickEvent>)
        ensures
            final(batch)@ == match self.button_target(code) {
                Some(k) => old(batch)@.push(StickEvent::Key(k, value)),
                None => old(batch)@,
            },
    {
        let target = if self.keys_mode {
            if code == BTN_THUMB {
                self.keys.thumb
            } else if code == BTN_BASE {
                self.keys.button1
            } else if code == BTN_BASE2 {
                self.keys.button2
            } else {
                None
            }
        } else {
            if code == BTN_THUMB {
                Some(BTN_SOUTH)
            } else if code == BTN_THUMB2 {
                Some(BTN_EAST)
            } else if code == BTN_BASE {
                Some(BTN_TL)
            } else if code == BTN_BASE2 {
                Some(BTN_TR)
            } else {
                None
            }
        };
        if let Some(k) = target {
            batch.push(StickEvent::Key(k, value));
        }
    }
}

} // verus!
