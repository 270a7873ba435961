//! Decoded discrete input: the digit buffer that places the preview
//! body, the accumulated key set, and the per-tick input step.
//!
//! The core never sees raw keyboard state; the shell hands it values
//! of [`Key`], already decoded.

use vstd::prelude::*;

use crate::fix::{mul_div, tdiv, SCALE};
use crate::typ::FruitType;
use crate::world::{LEFT, RIGHT};

verus! {

/// The keys the input step reads.
#[derive(Clone, Copy, Debug, PartialEq, Eq, Structural)]
pub enum Key {
    Digit0,
    Digit1,
    Digit2,
    Digit3,
    Digit4,
    Digit5,
    Digit6,
    Digit7,
    Digit8,
    Digit9,
    ArrowDown,
    ArrowLeft,
    ArrowRight,
    Backspace,
    ControlLeft,
    ControlRight,
    ShiftLeft,
}

impl Key {
    /// Position in the fixed key order (the order the accumulated set
    /// keeps, and so the order drained digits are appended in).
    pub open spec fn ordinal(self) -> int {
        match self {
            Key::Digit0 => 0,
            Key::Digit1 => 1,
            Key::Digit2 => 2,
            Key::Digit3 => 3,
            Key::Digit4 => 4,
            Key::Digit5 => 5,
            Key::Digit6 => 6,
            Key::Digit7 => 7,
            Key::Digit8 => 8,
            Key::Digit9 => 9,
            Key::ArrowDown => 10,
            Key::ArrowLeft => 11,
            Key::ArrowRight => 12,
            Key::Backspace => 13,
            Key::ControlLeft => 14,
            Key::ControlRight => 15,
            Key::ShiftLeft => 16,
        }
    }

    pub fn index(&self) -> (i: usize)
        ensures
            i == self.ordinal(),
    {
        match self {
            Key::Digit0 => 0,
            Key::Digit1 => 1,
            Key::Digit2 => 2,
            Key::Digit3 => 3,
            Key::Digit4 => 4,
            Key::Digit5 => 5,
            Key::Digit6 => 6,
            Key::Digit7 => 7,
            Key::Digit8 => 8,
            Key::Digit9 => 9,
            Key::ArrowDown => 10,
            Key::ArrowLeft => 11,
            Key::ArrowRight => 12,
            Key::Backspace => 13,
            Key::ControlLeft => 14,
            Key::ControlRight => 15,
            Key::ShiftLeft => 16,
        }
    }

    /// The digit a key enters, if it is a digit key.
    pub open spec fn spec_digit(self) -> Option<u8> {
        match self {
            Key::Digit0 => Some(0u8),
            Key::Digit1 => Some(1u8),
            Key::Digit2 => Some(2u8),
            Key::Digit3 => Some(3u8),
            Key::Digit4 => Some(4u8),
            Key::Digit5 => Some(5u8),
            Key::Digit6 => Some(6u8),
            Key::Digit7 => Some(7u8),
            Key::Digit8 => Some(8u8),
            Key::Digit9 => Some(9u8),
            _ => None,
        }
    }

    pub fn digit(&self) -> (d: Option<u8>)
        ensures
            d == self.spec_digit(),
    {
        match self {
            Key::Digit0 => Some(0u8),
            Key::Digit1 => Some(1u8),
            Key::Digit2 => Some(2u8),
            Key::Digit3 => Some(3u8),
            Key::Digit4 => Some(4u8),
            Key::Digit5 => Some(5u8),
            Key::Digit6 => Some(6u8),
            Key::Digit7 => Some(7u8),
            Key::Digit8 => Some(8u8),
            Key::Digit9 => Some(9u8),
            _ => None,
        }
    }
}

/// Strictly sorted by key order: the representation a key set keeps,
/// so membership is unique and draining yields keys in order.
pub open spec fn keyset_sorted(ks: Seq<Key>) -> bool {
    forall|i: int, j: int|
        0 <= i < j < ks.len() ==> #[trigger] ks[i].ordinal() < #[trigger] ks[j].ordinal()
}

/// Two keys with the same position in the key order are the same key.
pub proof fn lemma_key_ordinal_injective(a: Key, b: Key)
    requires
        a.ordinal() == b.ordinal(),
    ensures
        a == b,
{
}

/// The set of keys seen pressed since the input step last ran: kept
/// sorted and duplicate-free, as an ordered set.
#[derive(Clone, Debug, PartialEq, Eq)]
pub struct AccumulatedInput {
    pub keys: Vec<Key>,
}

impl AccumulatedInput {
    pub open spec fn wf(self) -> bool {
        keyset_sorted(self.keys@)
    }

    pub open spec fn has(self, k: Key) -> bool {
        self.keys@.contains(k)
    }

    pub fn new() -> (s: AccumulatedInput)
        ensures
            s.keys@ =~= Seq::<Key>::empty(),
            s.wf(),
    {
        AccumulatedInput { keys: Vec::new() }
    }

    /// Add a key; a key already present stays present once.
    #[verifier::loop_isolation(false)]
    pub fn insert(&mut self, k: Key)
        requires
            old(self).wf(),
        ensures
            final(self).wf(),
            forall|x: Key| final(self).has(x) <==> old(self).has(x) || x == k,
    {
        let ord = k.index();
        let n = self.keys.len();
        let mut i: usize = 0;
        while i < n && self.keys[i].index() < ord
            invariant
                0 <= i <= n,
                self.keys@ == old(self).keys@,
                forall|j: int| 0 <= j < i ==> #[trigger] self.keys@[j].ordinal() < ord,
            decreases n - i,
        {
            i = i + 1;
        }
        if i < n {
            let c = self.keys[i];
            if c.index() == ord {
                proof {
                    lemma_key_ordinal_injective(c, k);
                    assert(self.keys@[i as int] == k);
                    assert(old(self).has(k));
                }
                return ;
            }
        }
        let ghost before = self.keys@;
        proof {
            if i < n {
                assert(before[i as int].ordinal() > ord);
            }
        }
        self.keys.insert(i, k);
        proof {
            assert(self.keys@ == before.insert(i as int, k));
            assert forall|a: int, b: int|
                0 <= a < b < self.keys@.len() implies #[trigger] self.keys@[a].ordinal()
                < #[trigger] self.keys@[b].ordinal() by {}
            assert forall|x: Key|
                self.keys@.contains(x) <==> old(self).keys@.contains(x) || x == k by {
                if self.keys@.contains(x) {
                    let w = choose|w: int| 0 <= w < self.keys@.len() && self.keys@[w] == x;
                    if w < i {
                        assert(before[w] == x);
                    } else if w > i {
                        assert(before[w - 1] == x);
                    } else {
                        assert(self.keys@[i as int] == k);
                    }
                }
                if before.contains(x) {
                    let w = choose|w: int| 0 <= w < before.len() && before[w] == x;
                    if w < i {
                        assert(self.keys@[w] == x);
                    } else {
                        assert(self.keys@[w + 1] == x);
                    }
                }
                if x == k {
                    assert(self.keys@[i as int] == x);
                }
            }
        }
    }

    /// Take a key out; reports whether it was there.
    #[verifier::loop_isolation(false)]
    pub fn remove(&mut self, k: Key) -> (was: bool)
        requires
            old(self).wf(),
        ensures
            final(self).wf(),
            was == old(self).has(k),
            forall|x: Key| final(self).has(x) <==> old(self).has(x) && x != k,
            !was ==> final(self).keys@ == old(self).keys@,
            was ==> exists|idx: int|
                0 <= idx < old(self).keys@.len() && old(self).keys@[idx] == k
                    && final(self).keys@ == #[trigger] old(self).keys@.remove(idx),
    {
        let n = self.keys.len();
        let mut i: usize = 0;
        while i < n
            invariant
                0 <= i <= n,
                self.keys@ == old(self).keys@,
                forall|j: int| 0 <= j < i ==> #[trigger] self.keys@[j] != k,
            decreases n - i,
        {
            let c = self.keys[i];
            if c == k {
                let ghost before = self.keys@;
                self.keys.remove(i);
                proof {
                    assert(self.keys@ == before.remove(i as int));
                    assert forall|a: int, b: int|
                        0 <= a < b < self.keys@.len() implies #[trigger] self.keys@[a].ordinal()
                        < #[trigger] self.keys@[b].ordinal() by {}
                    assert forall|x: Key| final(self).has(x) <==> before.contains(x) && x != k by {
                        if self.keys@.contains(x) {
                            let w = choose|w: int|
                                0 <= w < self.keys@.len() && self.keys@[w] == x;
                            if w < i {
                                assert(before[w] == x);
                                assert(x != k);
                            } else {
                                assert(before[w + 1] == x);
                                assert(before[w + 1].ordinal() > before[i as int].ordinal());
                                assert(x != k);
                            }
                        }
                        if before.contains(x) && x != k {
                            let w = choose|w: int| 0 <= w < before.len() && before[w] == x;
                            if w < i {
                                assert(self.keys@[w] == x);
                            } else {
                                assert(w != i);
                                assert(self.keys@[w - 1] == x);
                            }
                        }
                    }
                    assert(before.contains(k)) by {
                        assert(before[i as int] == k);
                    }
                }
                return true;
            }
            i = i + 1;
        }
        proof {
            assert(!self.keys@.contains(k)) by {
                if self.keys@.contains(k) {
                    let w = choose|w: int| 0 <= w < self.keys@.len() && self.keys@[w] == k;
                }
            }
        }
        false
    }

    /// Take out and return the first key in key order.
    pub fn pop_first(&mut self) -> (r: Option<Key>)
        requires
            old(self).wf(),
        ensures
            final(self).wf(),
            old(self).keys@.len() == 0 ==> r is None && *final(self) == *old(self),
            old(self).keys@.len() > 0 ==> r == Some(old(self).keys@[0]) && final(self).keys@
                =~= old(self).keys@.drop_first(),
    {
        if self.keys.len() == 0 {
            return None;
        }
        let ghost before = self.keys@;
        let k = self.keys.remove(0);
        proof {
            assert(self.keys@ =~= before.drop_first());
            assert forall|a: int, b: int|
                0 <= a < b < self.keys@.len() implies #[trigger] self.keys@[a].ordinal()
                < #[trigger] self.keys@[b].ordinal() by {
                assert(self.keys@[a] == before[a + 1]);
                assert(self.keys@[b] == before[b + 1]);
            }
        }
        Some(k)
    }
}

/// The key set of the previous input step, for edge/hold detection.
#[derive(Clone, Debug, PartialEq, Eq)]
pub struct PreviousAccumulatedInput(pub AccumulatedInput);

/// Record every currently pressed key into the accumulated set.
pub fn record_key_press(input: &mut AccumulatedInput, pressed: &Vec<Key>)
    requires
        old(input).wf(),
    ensures
        final(input).wf(),
        forall|x: Key| final(input).has(x) <==> old(input).has(x) || pressed@.contains(x),
{
    let n = pressed.len();
    let mut i: usize = 0;
    while i < n
        invariant
            0 <= i <= n,
            n == pressed@.len(),
            input.wf(),
            forall|x: Key|
                input.has(x) <==> old(input).has(x) || pressed@.subrange(0, i as int).contains(x),
        decreases n - i,
    {
        input.insert(pressed[i]);
        proof {
            assert forall|x: Key|
                input.has(x) <==> old(input).has(x) || pressed@.subrange(
                    0,
                    i as int + 1,
                ).contains(x) by {
                if pressed@.subrange(0, i as int + 1).contains(x) {
                    let w = choose|w: int|
                        #![trigger pressed@.subrange(0, i as int + 1)[w]]
                        0 <= w < i as int + 1 && pressed@.subrange(0, i as int + 1)[w] == x;
                    if w < i as int {
                        assert(pressed@.subrange(0, i as int)[w] == x);
                    }
                }
                if pressed@.subrange(0, i as int).contains(x) {
                    let w = choose|w: int|
                        #![trigger pressed@.subrange(0, i as int)[w]]
                        0 <= w < i as int && pressed@.subrange(0, i as int)[w] == x;
                    assert(pressed@.subrange(0, i as int + 1)[w] == x);
                }
                if x == pressed@[i as int] {
                    assert(pressed@.subrange(0, i as int + 1)[i as int] == x);
                }
            }
        }
        i = i + 1;
    }
    proof {
        assert(pressed@.subrange(0, n as int) =~= pressed@);
    }
}

/// The digits the keys of `ks` would enter, in the order of `ks`.
pub open spec fn digits_of(ks: Seq<Key>) -> Seq<u8>
    decreases ks.len(),
{
    if ks.len() == 0 {
        Seq::empty()
    } else {
        match ks[0].spec_digit() {
            Some(d) => seq![d] + digits_of(ks.drop_first()),
            None => digits_of(ks.drop_first()),
        }
    }
}

/// Removing a non-digit key from a key sequence leaves the entered
/// digits unchanged.
pub proof fn lemma_digits_of_remove(ks: Seq<Key>, i: int)
    requires
        0 <= i < ks.len(),
        ks[i].spec_digit() is None,
    ensures
        digits_of(ks.remove(i)) =~= digits_of(ks),
    decreases ks.len(),
{
    if i == 0 {
        assert(ks.remove(0) =~= ks.drop_first());
    } else {
        assert(ks.remove(i).drop_first() =~= ks.drop_first().remove(i - 1));
        lemma_digits_of_remove(ks.drop_first(), i - 1);
        assert(ks.remove(i)[0] == ks[0]);
    }
}

/// The entered decimal fraction `0.d₀d₁…`, in subunits, read from
/// index `j` on; each step costs one truncated division by ten, just
/// as the digits each carry one more decimal place.
pub open spec fn frac_from(ds: Seq<u8>, j: int) -> int
    decreases ds.len() - j,
{
    if j < 0 || j >= ds.len() {
        0
    } else {
        tdiv(frac_from(ds, j + 1) + ds[j] * SCALE, 10)
    }
}

/// The digit buffer that places the preview body: the fractional
/// position `0.d₀d₁…` across the container width.
#[derive(Clone, Debug, PartialEq, Eq)]
pub struct DigitalInput {
    pub keys: Vec<u8>,
}

/// Every stored digit is a digit.
pub open spec fn digital_wf(d: DigitalInput) -> bool {
    forall|i: int| 0 <= i < d.keys@.len() ==> #[trigger] d.keys@[i] < 10
}

impl DigitalInput {
    /// The buffer holding a single `5`: the container's middle.
    pub fn new() -> (d: DigitalInput)
        ensures
            d.keys@ =~= seq![5u8],
            digital_wf(d),
    {
        let mut keys: Vec<u8> = Vec::new();
        keys.push(5);
        DigitalInput { keys }
    }

    /// Append the digit a key enters, if it enters one.
    pub fn add_digit(&mut self, key: Key)
        ensures
            final(self).keys@ =~= old(self).keys@ + match key.spec_digit() {
                Some(d) => seq![d],
                None => Seq::<u8>::empty(),
            },
            digital_wf(*old(self)) ==> digital_wf(*final(self)),
    {
        match key.digit() {
            Some(d) => {
                proof {
                    assert(key.spec_digit() is Some && key.spec_digit()->0 < 10);
                }
                self.keys.push(d);
            },
            None => {},
        }
    }

    /// The preview x position the buffer encodes: the entered fraction
    /// of the way from the left wall to the right wall.
    pub fn to_x(&self) -> (x: i64)
        requires
            digital_wf(*self),
        ensures
            x == LEFT + tdiv((RIGHT - LEFT) * frac_from(self.keys@, 0), SCALE as int),
            LEFT <= x <= RIGHT,
    {
        let mut frac: i64 = 0;
        let n = self.keys.len();
        let mut j: usize = n;
        while j > 0
            invariant
                0 <= j <= n,
                n == self.keys@.len(),
                digital_wf(*self),
                0 <= frac < SCALE,
                frac == frac_from(self.keys@, j as int),
            decreases j,
        {
            j = j - 1;
            proof {
                assert(self.keys@[j as int] < 10);
                crate::fix::lemma_tdiv_abs(frac + self.keys@[j as int] * SCALE, 10);
                vstd::arithmetic::div_mod::lemma_div_is_ordered(
                    frac + self.keys@[j as int] * SCALE,
                    10 * SCALE - 1,
                    10,
                );
            }
            frac = (frac + (self.keys[j] as i64) * SCALE) / 10;
        }
        proof {
            assert(vstd::math::abs((RIGHT - LEFT) as int * frac) <= (RIGHT as int - LEFT as int)
                * SCALE as int && (RIGHT - LEFT) as int * frac >= 0) by (nonlinear_arith)
                requires
                    0 <= frac < SCALE as int,
                    RIGHT as int - LEFT as int > 0,
            ;
            crate::fix::lemma_tdiv_bound((RIGHT - LEFT) as int * frac, SCALE as int, RIGHT as int
                - LEFT as int);
            crate::fix::lemma_tdiv_abs((RIGHT - LEFT) as int * frac, SCALE as int);
        }
        let off = mul_div(RIGHT - LEFT, frac, SCALE);
        LEFT + off
    }

    /// The on-screen text of the buffer: `0.` then the digits.
    pub fn to_display(&self) -> (s: String)
        requires
            digital_wf(*self),
        ensures
            s@ =~= seq!['0', '.'] + self.keys@.map_values(|d: u8| (d + 0x30) as char),
    {
        let mut s = String::from_str("0.");
        proof {
            reveal_strlit("0.");
            assert(s@ =~= seq!['0', '.'] + self.keys@.subrange(0, 0).map_values(
                |d: u8| (d + 0x30) as char,
            ));
        }
        let n = self.keys.len();
        let mut i: usize = 0;
        while i < n
            invariant
                0 <= i <= n,
                n == self.keys@.len(),
                digital_wf(*self),
                s@ =~= seq!['0', '.'] + self.keys@.subrange(0, i as int).map_values(
                    |d: u8| (d + 0x30) as char,
                ),
            decreases n - i,
        {
            let d = self.keys[i];
            let piece = match d {
                0 => "0",
                1 => "1",
                2 => "2",
                3 => "3",
                4 => "4",
                5 => "5",
                6 => "6",
                7 => "7",
                8 => "8",
                _ => "9",
            };
            proof {
                reveal_strlit("0");
                reveal_strlit("1");
                reveal_strlit("2");
                reveal_strlit("3");
                reveal_strlit("4");
                reveal_strlit("5");
                reveal_strlit("6");
                reveal_strlit("7");
                reveal_strlit("8");
                reveal_strlit("9");
            }
            s.append(piece);
            proof {
                assert(self.keys@[i as int] < 10);
                assert(piece@ =~= seq![(self.keys@[i as int] + 0x30) as char]);
                assert(s@ =~= seq!['0', '.'] + self.keys@.subrange(0, i as int + 1).map_values(
                    |d: u8| (d + 0x30) as char,
                ));
            }
            i = i + 1;
        }
        proof {
            assert(self.keys@.subrange(0, n as int) =~= self.keys@);
        }
        s
    }
}

/// The drop command: spawn a falling body from the preview.
#[derive(Clone, Copy, Debug, PartialEq, Eq, Structural)]
pub struct DropEvent;

/// A key being held across input steps, for repeat-while-held.
#[derive(Clone, Copy, Debug, PartialEq, Eq, Structural)]
pub struct KeyHoldEvent(pub Key);

/// The player's preview state: the class to drop next, the digit
/// buffer, and the x position the buffer encodes.
#[derive(Clone, Debug, PartialEq, Eq)]
pub struct Player {
    pub typ: FruitType,
    pub input: DigitalInput,
    pub x: i64,
}

impl Player {
    /// The starting preview: the smallest class, centred (`0.5`).
    pub fn new() -> (p: Player)
        ensures
            p.typ == FruitType::Blueberry,
            digital_wf(p.input),
            p.input.keys@ =~= seq![5u8],
            LEFT <= p.x <= RIGHT,
    {
        let input = DigitalInput::new();
        let x = input.to_x();
        Player { typ: FruitType::Blueberry, input, x }
    }
}

/// What one input step decided: the raised signals and the fresh
/// display text.
pub struct PlayerInputOutcome {
    pub reset: Option<crate::collision::ResetEvent>,
    pub drop: Option<DropEvent>,
    pub hold: Option<KeyHoldEvent>,
    pub display: String,
}

/// The digit buffer after the backspace stage: the last digit deleted
/// when backspace came without the reset modifier.
pub open spec fn after_backspace(ks: Seq<u8>, inp: AccumulatedInput) -> Seq<u8> {
    if inp.has(Key::Backspace) && !inp.has(Key::ShiftLeft) && ks.len() > 0 {
        ks.drop_last()
    } else {
        ks
    }
}

/// The nudge direction the arrow keys ask for (right wins).
pub open spec fn nudge_dir(inp: AccumulatedInput) -> int {
    if inp.has(Key::ArrowRight) {
        1
    } else if inp.has(Key::ArrowLeft) {
        -1
    } else {
        0
    }
}

pub open spec fn clamp_digit(v: int) -> u8 {
    if v < 0 {
        0u8
    } else if v > 9 {
        9u8
    } else {
        v as u8
    }
}

/// Which digit the nudge adjusts: the first with a control modifier,
/// else the last.
pub open spec fn nudge_index(ks: Seq<u8>, inp: AccumulatedInput) -> int {
    if inp.has(Key::ControlLeft) || inp.has(Key::ControlRight) {
        0
    } else if ks.len() == 0 {
        0
    } else {
        ks.len() - 1
    }
}

/// The digit buffer after the nudge stage: the chosen digit moved one
/// step and clamped to the digit range; an empty buffer gains the
/// nudged zero.
pub open spec fn after_nudge(ks: Seq<u8>, inp: AccumulatedInput) -> Seq<u8> {
    let d = nudge_dir(inp);
    if d == 0 {
        ks
    } else if ks.len() == 0 {
        seq![clamp_digit(d)]
    } else {
        ks.update(nudge_index(ks, inp), clamp_digit(ks[nudge_index(ks, inp)] + d))
    }
}

/// Take a non-digit key out of the set; the entered digits are
/// unaffected.
fn remove_nondigit(input: &mut AccumulatedInput, k: Key) -> (was: bool)
    requires
        old(input).wf(),
        k.spec_digit() is None,
    ensures
        final(input).wf(),
        was == old(input).has(k),
        forall|x: Key| final(input).has(x) <==> old(input).has(x) && x != k,
        digits_of(final(input).keys@) =~= digits_of(old(input).keys@),
{
    let ghost prev = input.keys@;
    let was = input.remove(k);
    proof {
        if was {
            let idx = choose|idx: int|
                0 <= idx < prev.len() && prev[idx] == k && input.keys@ == #[trigger] prev.remove(
                    idx,
                );
            lemma_digits_of_remove(prev, idx);
        }
    }
    was
}

/// One input step, run on its own slower cadence.
///
/// In order: backspace deletes the last digit, or with the shift
/// modifier raises the reset signal; a fresh arrow-down press raises
/// the drop signal, while a held one raises the hold signal; an arrow
/// nudge moves one digit of the buffer; every remaining key is then
/// drained into the buffer in key order, digits appending themselves.
/// The preview position is re-derived from the buffer, and the set of
/// accumulated keys is left empty for the next round.
#[verifier::loop_isolation(false)]
#[verifier::rlimit(60)]
pub fn player_input(
    player: &mut Player,
    input: &mut AccumulatedInput,
    previous_input: &mut PreviousAccumulatedInput,
) -> (out: PlayerInputOutcome)
    requires
        digital_wf(old(player).input),
        old(input).wf(),
        old(previous_input).0.wf(),
    ensures
        final(player).typ == old(player).typ,
        digital_wf(final(player).input),
        final(player).input.keys@ =~= after_nudge(
            after_backspace(old(player).input.keys@, *old(input)),
            *old(input),
        ) + digits_of(old(input).keys@),
        final(player).x == LEFT + tdiv(
            (RIGHT - LEFT) * frac_from(final(player).input.keys@, 0),
            SCALE as int,
        ),
        LEFT <= final(player).x <= RIGHT,
        final(input).wf(),
        final(input).keys@.len() == 0,
        final(previous_input).0.wf(),
        forall|x: Key|
            final(previous_input).0.has(x) <==> (if x == Key::ArrowDown {
                old(input).has(Key::ArrowDown)
            } else {
                old(previous_input).0.has(x)
            }),
        out.reset is Some <==> (old(input).has(Key::Backspace) && old(input).has(Key::ShiftLeft)),
        out.drop is Some <==> (old(input).has(Key::ArrowDown) && !old(previous_input).0.has(
            Key::ArrowDown,
        )),
        out.hold is Some <==> (old(input).has(Key::ArrowDown) && old(previous_input).0.has(
            Key::ArrowDown,
        )),
        out.display@ =~= seq!['0', '.'] + final(player).input.keys@.map_values(
            |d: u8| (d + 0x30) as char,
        ),
{
    let mut reset: Option<crate::collision::ResetEvent> = None;
    let mut drop: Option<DropEvent> = None;
    let mut hold: Option<KeyHoldEvent> = None;

    if remove_nondigit(input, Key::Backspace) {
        if remove_nondigit(input, Key::ShiftLeft) {
            reset = Some(crate::collision::ResetEvent);
        } else {
            player.input.keys.pop();
        }
    }
    proof {
        assert(player.input.keys@ =~= after_backspace(old(player).input.keys@, *old(input)));
    }

    if remove_nondigit(input, Key::ArrowDown) {
        if previous_input.0.remove(Key::ArrowDown) {
            hold = Some(KeyHoldEvent(Key::ArrowDown));
        } else {
            drop = Some(DropEvent);
        }
        previous_input.0.insert(Key::ArrowDown);
    } else {
        previous_input.0.remove(Key::ArrowDown);
    }

    let ghost stage1 = player.input.keys@;
    let dir: i64 = if remove_nondigit(input, Key::ArrowRight) {
        1
    } else if remove_nondigit(input, Key::ArrowLeft) {
        -1
    } else {
        0
    };
    let ctrl = remove_nondigit(input, Key::ControlLeft) || remove_nondigit(
        input,
        Key::ControlRight,
    );
    let index: usize = if ctrl {
        0
    } else if player.input.keys.len() == 0 {
        0
    } else {
        player.input.keys.len() - 1
    };
    if dir != 0 {
        if player.input.keys.len() == 0 {
            let v: i64 = if dir < 0 {
                0
            } else if dir > 9 {
                9
            } else {
                dir
            };
            player.input.keys.insert(0, v as u8);
        } else {
            let ghost before = player.input.keys@;
            let old_digit = player.input.keys.remove(index);
            let mut v: i64 = old_digit as i64 + dir;
            if v < 0 {
                v = 0;
            }
            if v > 9 {
                v = 9;
            }
            player.input.keys.insert(index, v as u8);
            proof {
                assert(player.input.keys@ =~= before.update(
                    index as int,
                    clamp_digit(before[index as int] + dir),
                ));
            }
        }
    }
    proof {
        assert(player.input.keys@ =~= after_nudge(stage1, *old(input)));
    }

    let ghost goal = player.input.keys@ + digits_of(old(input).keys@);
    proof {
        assert(player.input.keys@ + digits_of(input.keys@) =~= goal);
    }
    while input.keys.len() > 0
        invariant
            input.wf(),
            digital_wf(player.input),
            player.typ == old(player).typ,
            player.input.keys@ + digits_of(input.keys@) =~= goal,
        decreases input.keys@.len(),
    {
        let ghost rem = input.keys@;
        let k = input.pop_first().unwrap();
        proof {
            assert(rem[0] == k);
        }
        player.input.add_digit(k);
        proof {
            match k.spec_digit() {
                Some(d) => {
                    assert(digits_of(rem) =~= seq![d] + digits_of(rem.drop_first()));
                },
                None => {
                    assert(digits_of(rem) =~= digits_of(rem.drop_first()));
                },
            }
            assert(player.input.keys@ + digits_of(input.keys@) =~= goal);
        }
    }
    proof {
        assert(digits_of(input.keys@) =~= Seq::<u8>::empty());
        assert(player.input.keys@ =~= goal);
    }

    player.x = player.input.to_x();
    let display = player.input.to_display();
    PlayerInputOutcome { reset, drop, hold, display }
}

/// The repeat-while-held decision: a pending hold of the drop key,
/// still pressed, fires another drop and re-arms the hold; released,
/// it clears.
pub struct FastDropOutcome {
    pub drop: Option<DropEvent>,
    pub rearm: Option<KeyHoldEvent>,
}

pub fn fast_drop(hold_events: &Vec<KeyHoldEvent>, arrow_down_pressed: bool) -> (out:
    FastDropOutcome)
    ensures
        out.drop is Some <==> (arrow_down_pressed && hold_events@.contains(
            KeyHoldEvent(Key::ArrowDown),
        )),
        out.rearm is Some <==> (arrow_down_pressed && hold_events@.contains(
            KeyHoldEvent(Key::ArrowDown),
        )),
{
    let n = hold_events.len();
    let mut i: usize = 0;
    let mut found = false;
    while i < n
        invariant
            0 <= i <= n,
            n == hold_events@.len(),
            found <==> hold_events@.subrange(0, i as int).contains(KeyHoldEvent(Key::ArrowDown)),
        decreases n - i,
    {
        let e = hold_events[i];
        if e.0 == Key::ArrowDown {
            found = true;
        }
        proof {
            assert forall|w: int| 0 <= w < i as int + 1 implies (hold_events@.subrange(
                0,
                i as int + 1,
            )[w] == hold_events@[w]) by {}
            if hold_events@.subrange(0, i as int).contains(KeyHoldEvent(Key::ArrowDown)) {
                let w = choose|w: int|
                    #![trigger hold_events@.subrange(0, i as int)[w]]
                    0 <= w < i as int && hold_events@.subrange(0, i as int)[w] == KeyHoldEvent(
                        Key::ArrowDown,
                    );
                assert(hold_events@.subrange(0, i as int + 1)[w] == KeyHoldEvent(Key::ArrowDown));
            }
            if hold_events@[i as int] == KeyHoldEvent(Key::ArrowDown) {
                assert(hold_events@.subrange(0, i as int + 1)[i as int] == KeyHoldEvent(
                    Key::ArrowDown,
                ));
            }
        }
        i = i + 1;
    }
    proof {
        assert(hold_events@.subrange(0, n as int) =~= hold_events@);
    }
    if found && arrow_down_pressed {
        FastDropOutcome {
            drop: Some(DropEvent),
            rearm: Some(KeyHoldEvent(Key::ArrowDown)),
        }
    } else {
        FastDropOutcome { drop: None, rearm: None }
    }
}

} // verus!
