//! Keyboard state, the camera motion that held keys ask for, window resizes
//! and the decision to keep the event loop waiting or to exit.

use vstd::prelude::*;

verus! {

/// A key of the keyboard, as far as the viewer tells keys apart; every other
/// key keeps the code it came with.
#[derive(Clone, Copy, PartialEq, Eq, Structural, Debug)]
pub enum Key {
    D,
    A,
    W,
    S,
    Space,
    LShift,
    Left,
    Right,
    Up,
    Down,
    Key1,
    Key5,
    Escape,
    Q,
    Other(u32),
}

/// No key occurs twice in `s`.
pub open spec fn distinct_keys(s: Seq<Key>) -> bool {
    forall|i: int, j: int| 0 <= i < j < s.len() ==> s[i] != s[j]
}

/// The position of the first occurrence of `k` in `s`.
pub open spec fn first_index(s: Seq<Key>, k: Key) -> int {
    choose|i: int| 0 <= i < s.len() && s[i] == k && forall|j: int| 0 <= j < i ==> s[j] != k
}

/// The held keys after `k` is pressed: appended unless already held.
pub open spec fn after_press(s: Seq<Key>, k: Key) -> Seq<Key> {
    if s.contains(k) {
        s
    } else {
        s.push(k)
    }
}

/// The held keys after `k` is released: its first occurrence is removed, if
/// there is one.
pub open spec fn after_release(s: Seq<Key>, k: Key) -> Seq<Key> {
    if s.contains(k) {
        s.remove(first_index(s, k))
    } else {
        s
    }
}

/// The keys that are currently held down, in the order in which they were
/// pressed.
pub struct PressedKeys {
    keys: Vec<Key>,
}

impl View for PressedKeys {
    type V = Seq<Key>;

    closed spec fn view(&self) -> Seq<Key> {
        self.keys@
    }
}

impl PressedKeys {
    #[verifier::type_invariant]
    spec fn keys_distinct(self) -> bool {
        distinct_keys(self.keys@)
    }

    /// No key is held.
    pub fn new() -> (keys: PressedKeys)
        ensures
            keys@ == Seq::<Key>::empty(),
            distinct_keys(keys@),
    {
        PressedKeys { keys: Vec::new() }
    }

    /// Whether `key` is held.
    pub fn contains(&self, key: Key) -> (held: bool)
        ensures
            held == self@.contains(key),
    {
        let mut i: usize = 0;
        while i < self.keys.len()
            invariant
                0 <= i <= self.keys@.len(),
                forall|j: int| 0 <= j < i ==> self.keys@[j] != key,
            decreases self.keys@.len() - i,
        {
            if self.keys[i] == key {
                return true;
            }
            i = i + 1;
        }
        false
    }

    /// Where `key` first occurs, if it is held.
    fn position(&self, key: Key) -> (pos: Option<usize>)
        ensures
            match pos {
                Some(i) => i == first_index(self@, key) && self@.contains(key) && i
                    < self@.len(),
                None => !self@.contains(key),
            },
    {
        let mut i: usize = 0;
        while i < self.keys.len()
            invariant
                0 <= i <= self.keys@.len(),
                forall|j: int| 0 <= j < i ==> self.keys@[j] != key,
            decreases self.keys@.len() - i,
        {
            if self.keys[i] == key {
                let ghost s = self.keys@;
                proof {
                    let w = first_index(s, key);
                    assert(0 <= i < s.len() && s[i as int] == key && forall|j: int|
                        0 <= j < i ==> s[j] != key);
                    assert(0 <= w < s.len() && s[w] == key && forall|j: int|
                        0 <= j < w ==> s[j] != key);
                    if w < i {
                    } else if w > i {
                        assert(s[i as int] != key);
                    }
                }
                return Some(i);
            }
            i = i + 1;
        }
        None
    }

    /// Records that `key` went down.
    pub fn press(&mut self, key: Key)
        ensures
            final(self)@ == after_press(old(self)@, key),
            distinct_keys(final(self)@),
    {
        proof {
            use_type_invariant(&*self);
        }
        if !self.contains(key) {
            let mut keys: Vec<Key> = Vec::new();
            std::mem::swap(&mut keys, &mut self.keys);
            keys.push(key);
            self.keys = keys;
        }
    }

    /// Records that `key` went up.
    pub fn release(&mut self, key: Key)
        ensures
            final(self)@ == after_release(old(self)@, key),
            distinct_keys(final(self)@),
    {
        proof {
            use_type_invariant(&*self);
        }
        match self.position(key) {
            Some(i) => {
                let ghost s = self.keys@;
                let mut keys: Vec<Key> = Vec::new();
                std::mem::swap(&mut keys, &mut self.keys);
                keys.remove(i);
                assert(keys@ =~= s.remove(i as int));
                self.keys = keys;
            },
            None => {},
        }
    }

    /// Records a key event: a press when `pressed` holds, a release otherwise.
    pub fn update(&mut self, key: Key, pressed: bool)
        ensures
            final(self)@ == (if pressed {
                after_press(old(self)@, key)
            } else {
                after_release(old(self)@, key)
            }),
            distinct_keys(final(self)@),
    {
        if pressed {
            self.press(key);
        } else {
            self.release(key);
        }
    }
}

/// Releasing a key that was just pressed, when it was not held before, gives
/// back the keys as they were, in the same order.
pub proof fn release_undoes_press(s: Seq<Key>, k: Key)
    requires
        !s.contains(k),
    ensures
        after_release(after_press(s, k), k) == s,
{
    let t = s.push(k);
    assert(t[s.len() as int] == k);
    assert(t.contains(k));
    let w = first_index(t, k);
    assert(0 <= s.len() < t.len() && t[s.len() as int] == k && forall|j: int|
        0 <= j < s.len() ==> t[j] != k) by {
        assert forall|j: int| 0 <= j < s.len() implies t[j] != k by {
            if t[j] == k {
                assert(s[j] == k);
                assert(s.contains(k));
            }
        }
    }
    assert(w == s.len()) by {
        if w < s.len() {
            assert(t[w] == k);
        } else if w > s.len() {
        }
    }
    assert(t.remove(w) =~= s);
}

/// A pressed key is held afterwards, appended after the keys already held
/// when it was new; every other key stays held or not held as before.
pub proof fn press_holds_the_key(s: Seq<Key>, k: Key)
    ensures
        after_press(s, k).contains(k),
        !s.contains(k) ==> after_press(s, k) == s.push(k),
        forall|other: Key| other != k ==> (after_press(s, k).contains(other) <==> s.contains(other)),
        distinct_keys(s) ==> distinct_keys(after_press(s, k)),
{
    let t = after_press(s, k);
    if !s.contains(k) {
        assert(t[s.len() as int] == k);
    }
    assert forall|other: Key| other != k implies (t.contains(other) <==> s.contains(other)) by {
        if s.contains(other) {
            let i = choose|i: int| 0 <= i < s.len() && s[i] == other;
            assert(t[i] == other);
        }
        if t.contains(other) {
            let i = choose|i: int| 0 <= i < t.len() && t[i] == other;
            assert(s[i] == other);
        }
    }
}

/// A released key is no longer held, one key fewer is held when it was, and
/// every other key stays held or not held as before.
pub proof fn release_drops_only_the_key(s: Seq<Key>, k: Key)
    requires
        distinct_keys(s),
    ensures
        !after_release(s, k).contains(k),
        s.contains(k) ==> after_release(s, k).len() + 1 == s.len(),
        forall|other: Key| other != k ==> (after_release(s, k).contains(other) <==> s.contains(other)),
        distinct_keys(after_release(s, k)),
{
    let t = after_release(s, k);
    if s.contains(k) {
        let w = first_index(s, k);
        assert(0 <= w < s.len() && s[w] == k);
        assert forall|i: int| 0 <= i < t.len() implies #[trigger] t[i] == (if i < w {
            s[i]
        } else {
            s[i + 1]
        }) by {}
        assert(!t.contains(k)) by {
            if t.contains(k) {
                let i = choose|i: int| 0 <= i < t.len() && t[i] == k;
                if i < w {
                    assert(s[i] == s[w]);
                } else {
                    assert(s[i + 1] == s[w]);
                }
            }
        }
        assert forall|other: Key| other != k implies (t.contains(other) <==> s.contains(other)) by {
            if s.contains(other) {
                let i = choose|i: int| 0 <= i < s.len() && s[i] == other;
                if i < w {
                    assert(t[i] == other);
                } else {
                    assert(i != w);
                    assert(t[i - 1] == other);
                }
            }
            if t.contains(other) {
                let i = choose|i: int| 0 <= i < t.len() && t[i] == other;
                if i < w {
                    assert(s[i] == other);
                } else {
                    assert(s[i + 1] == other);
                }
            }
        }
        assert(distinct_keys(t)) by {
            assert forall|i: int, j: int| 0 <= i < j < t.len() implies t[i] != t[j] by {
                let a = if i < w {
                    i
                } else {
                    i + 1
                };
                let b = if j < w {
                    j
                } else {
                    j + 1
                };
                assert(s[a] == t[i] && s[b] == t[j]);
            }
        }
    }
}

/// Releasing a key takes out its first occurrence and leaves the keys before
/// and after it, in their order.
pub proof fn release_cuts_out_the_key(s1: Seq<Key>, k: Key, s2: Seq<Key>)
    requires
        !s1.contains(k),
    ensures
        after_release(s1 + seq![k] + s2, k) == s1 + s2,
{
    let s = s1 + seq![k] + s2;
    let n = s1.len() as int;
    assert(s[n] == k);
    assert(s.contains(k));
    assert(forall|j: int| 0 <= j < n ==> s[j] != k) by {
        assert forall|j: int| 0 <= j < n implies s[j] != k by {
            assert(s[j] == s1[j]);
            if s1[j] == k {
                assert(s1.contains(k));
            }
        }
    }
    let w = first_index(s, k);
    assert(w == n) by {
        if w < n {
            assert(s[w] != k);
        } else if w > n {
            assert(s[n] != k);
        }
    }
    assert(s.remove(n) =~= s1 + s2);
}

/// Pressing a key that is already held changes nothing, and releasing a key
/// that is not held changes nothing.
pub proof fn repeated_events_change_nothing(s: Seq<Key>, k: Key)
    ensures
        s.contains(k) ==> after_press(s, k) == s,
        !s.contains(k) ==> after_release(s, k) == s,
{
}


/// One step of camera motion that a held key asks for: the component of the
/// motion vector it changes (0 to 2 translate along x, y, z; 3 to 5 rotate
/// about x, y, z) and whether that component grows or shrinks.
#[derive(Clone, Copy, PartialEq, Eq, Structural, Debug)]
pub struct MotionStep {
    pub axis: usize,
    pub increase: bool,
}

/// The motion a held key asks for, if any.
pub open spec fn motion_of(k: Key) -> Option<MotionStep> {
    match k {
        Key::D => Some(MotionStep { axis: 0, increase: true }),
        Key::A => Some(MotionStep { axis: 0, increase: false }),
        Key::W => Some(MotionStep { axis: 1, increase: true }),
        Key::S => Some(MotionStep { axis: 1, increase: false }),
        Key::Space => Some(MotionStep { axis: 2, increase: true }),
        Key::LShift => Some(MotionStep { axis: 2, increase: false }),
        Key::Left => Some(MotionStep { axis: 3, increase: true }),
        Key::Right => Some(MotionStep { axis: 3, increase: false }),
        Key::Up => Some(MotionStep { axis: 4, increase: true }),
        Key::Down => Some(MotionStep { axis: 4, increase: false }),
        Key::Key1 => Some(MotionStep { axis: 5, increase: true }),
        Key::Key5 => Some(MotionStep { axis: 5, increase: false }),
        _ => None,
    }
}

/// The motion steps that the keys of `s` ask for, in the order of `s`.
pub open spec fn steps_of(s: Seq<Key>) -> Seq<MotionStep>
    decreases s.len(),
{
    if s.len() == 0 {
        seq![]
    } else {
        steps_of(s.drop_last()) + match motion_of(s.last()) {
            Some(m) => seq![m],
            None => seq![],
        }
    }
}

/// The motion a single key asks for.
pub fn motion_for_key(key: Key) -> (step: Option<MotionStep>)
    ensures
        step == motion_of(key),
{
    match key {
        Key::D => Some(MotionStep { axis: 0, increase: true }),
        Key::A => Some(MotionStep { axis: 0, increase: false }),
        Key::W => Some(MotionStep { axis: 1, increase: true }),
        Key::S => Some(MotionStep { axis: 1, increase: false }),
        Key::Space => Some(MotionStep { axis: 2, increase: true }),
        Key::LShift => Some(MotionStep { axis: 2, increase: false }),
        Key::Left => Some(MotionStep { axis: 3, increase: true }),
        Key::Right => Some(MotionStep { axis: 3, increase: false }),
        Key::Up => Some(MotionStep { axis: 4, increase: true }),
        Key::Down => Some(MotionStep { axis: 4, increase: false }),
        Key::Key1 => Some(MotionStep { axis: 5, increase: true }),
        Key::Key5 => Some(MotionStep { axis: 5, increase: false }),
        _ => None,
    }
}

impl PressedKeys {
    /// The motion steps of all held keys, in the order in which the keys were
    /// pressed; keys that move nothing are skipped.
    pub fn motion_steps(&self) -> (steps: Vec<MotionStep>)
        ensures
            steps@ == steps_of(self@),
    {
        let mut steps: Vec<MotionStep> = Vec::new();
        let mut i: usize = 0;
        while i < self.keys.len()
            invariant
                0 <= i <= self.keys@.len(),
                steps@ == steps_of(self.keys@.take(i as int)),
            decreases self.keys@.len() - i,
        {
            let ghost before = steps@;
            proof {
                let t = self.keys@.take(i + 1);
                assert(t.drop_last() =~= self.keys@.take(i as int));
                assert(t.last() == self.keys@[i as int]);
            }
            match motion_for_key(self.keys[i]) {
                Some(m) => {
                    steps.push(m);
                },
                None => {},
            }
            assert(steps@ =~= steps_of(self.keys@.take(i + 1)));
            i = i + 1;
        }
        assert(self.keys@.take(self.keys@.len() as int) =~= self.keys@);
        steps
    }
}

/// The size of the window as last reported, and whether the drawing side
/// still has to adapt to it.
#[derive(Clone, Copy, PartialEq, Eq, Structural, Debug)]
pub struct WindowSize {
    pub width: u32,
    pub height: u32,
    pub resized: bool,
}

/// The window size after the window reported `width` by `height`.
pub open spec fn after_resize(width: u32, height: u32) -> WindowSize {
    WindowSize { width, height, resized: true }
}

/// What taking a pending resize from `w` gives back, and the size left
/// behind.
pub open spec fn take_resize_of(w: WindowSize) -> (Option<(u32, u32)>, WindowSize) {
    if w.resized {
        (Some((w.width, w.height)), WindowSize { resized: false, ..w })
    } else {
        (None, w)
    }
}

impl WindowSize {
    /// The size the window is opened with; nothing is pending.
    pub fn new(width: u32, height: u32) -> (size: WindowSize)
        ensures
            size == (WindowSize { width, height, resized: false }),
    {
        WindowSize { width, height, resized: false }
    }

    /// Records a size that the window reported.
    pub fn record_resize(&mut self, width: u32, height: u32)
        ensures
            *final(self) == after_resize(width, height),
    {
        *self = WindowSize { width, height, resized: true };
    }

    /// The size to adapt to, if one is pending; it is then no longer pending.
    pub fn take_resize(&mut self) -> (pending: Option<(u32, u32)>)
        ensures
            (pending, *final(self)) == take_resize_of(*old(self)),
    {
        if self.resized {
            self.resized = false;
            Some((self.width, self.height))
        } else {
            None
        }
    }
}

/// A resize is taken exactly once: the first take after it gives the reported
/// size, a second take gives nothing.
pub proof fn resize_taken_once(width: u32, height: u32)
    ensures
        take_resize_of(after_resize(width, height)).0 == Some((width, height)),
        take_resize_of(take_resize_of(after_resize(width, height)).1).0 == None::<(u32, u32)>,
{
}

/// What the window system reported.
#[derive(Clone, Copy, PartialEq, Eq, Structural, Debug)]
pub enum InputEvent {
    /// The window now has this size in physical pixels.
    Resized { width: u32, height: u32 },
    /// The user asked to close the window.
    CloseRequested,
    /// A key went down (`pressed`) or up.
    Keyboard { key: Key, pressed: bool },
    /// Anything else, mouse motion among it.
    Other,
}

/// Whether the event loop goes on waiting for events or exits.
#[derive(Clone, Copy, PartialEq, Eq, Structural, Debug)]
pub enum Flow {
    Wait,
    Exit,
}

/// The state change that an event asks for.
#[derive(Clone, Copy, PartialEq, Eq, Structural, Debug)]
pub enum Effect {
    /// Nothing changes.
    Nothing,
    /// Record the new window size.
    Resize { width: u32, height: u32 },
    /// Update the held keys.
    Key { key: Key, pressed: bool },
}

/// The answer to one event.
#[derive(Clone, Copy, PartialEq, Eq, Structural, Debug)]
pub struct Response {
    pub effect: Effect,
    pub flow: Flow,
}

/// The keys that close the viewer, whether they go down or up.
pub open spec fn is_exit_key(k: Key) -> bool {
    k == Key::Escape || k == Key::Q
}

/// The answer to `event`, given whether the drawing thread is still healthy:
/// the loop exits when that thread failed, when closing was requested, or on
/// an exit key; a resize or a key event is passed on as a state change.
pub open spec fn response_to(render_healthy: bool, event: InputEvent) -> Response {
    let effect = match event {
        InputEvent::Resized { width, height } => Effect::Resize { width, height },
        InputEvent::Keyboard { key, pressed } => Effect::Key { key, pressed },
        _ => Effect::Nothing,
    };
    let exit = !render_healthy || event == InputEvent::CloseRequested || (match event {
        InputEvent::Keyboard { key, pressed: _ } => is_exit_key(key),
        _ => false,
    });
    Response { effect, flow: if exit { Flow::Exit } else { Flow::Wait } }
}

/// Decides how to answer one event of the window system.
pub fn respond(render_healthy: bool, event: InputEvent) -> (response: Response)
    ensures
        response == response_to(render_healthy, event),
{
    let mut flow = Flow::Wait;
    if !render_healthy {
        flow = Flow::Exit;
    }
    let effect = match event {
        InputEvent::Resized { width, height } => Effect::Resize { width, height },
        InputEvent::CloseRequested => {
            flow = Flow::Exit;
            Effect::Nothing
        },
        InputEvent::Keyboard { key, pressed } => {
            match key {
                Key::Escape => {
                    flow = Flow::Exit;
                },
                Key::Q => {
                    flow = Flow::Exit;
                },
                _ => {},
            }
            Effect::Key { key, pressed }
        },
        InputEvent::Other => Effect::Nothing,
    };
    Response { effect, flow }
}


/// Each of the six motion components has exactly one key that increases it
/// and exactly one that decreases it, and no key asks for any other motion.
pub proof fn motion_keys_cover_each_axis(axis: usize, increase: bool)
    ensures
        axis < 6 ==> exists|k: Key| #[trigger] motion_of(k) == Some(MotionStep { axis, increase }),
        forall|k1: Key, k2: Key|
            motion_of(k1) == Some(MotionStep { axis, increase }) && motion_of(k2) == Some(
                MotionStep { axis, increase },
            ) ==> k1 == k2,
        forall|k: Key| #[trigger] motion_of(k) is Some ==> motion_of(k)->0.axis < 6,
{
    if axis < 6 {
        let k = if axis == 0 {
            if increase { Key::D } else { Key::A }
        } else if axis == 1 {
            if increase { Key::W } else { Key::S }
        } else if axis == 2 {
            if increase { Key::Space } else { Key::LShift }
        } else if axis == 3 {
            if increase { Key::Left } else { Key::Right }
        } else if axis == 4 {
            if increase { Key::Up } else { Key::Down }
        } else {
            if increase { Key::Key1 } else { Key::Key5 }
        };
        assert(motion_of(k) == Some(MotionStep { axis, increase }));
    }
}

/// `plus` increases the motion component `axis` and `minus` decreases it.
pub open spec fn opposite_keys(plus: Key, minus: Key, axis: usize) -> bool {
    &&& motion_of(plus) == Some(MotionStep { axis, increase: true })
    &&& motion_of(minus) == Some(MotionStep { axis, increase: false })
}

/// The keys come in opposite pairs: D and A move along x, W and S along y,
/// Space and left Shift along z, the left and right arrows rotate about x,
/// the up and down arrows about y, and 1 and 5 about z; the first of each
/// pair increases its component, the second decreases it.
pub proof fn motion_keys_come_in_opposite_pairs()
    ensures
        opposite_keys(Key::D, Key::A, 0),
        opposite_keys(Key::W, Key::S, 1),
        opposite_keys(Key::Space, Key::LShift, 2),
        opposite_keys(Key::Left, Key::Right, 3),
        opposite_keys(Key::Up, Key::Down, 4),
        opposite_keys(Key::Key1, Key::Key5, 5),
{
}

/// The motion of the keys held one after the other is the motion of the
/// first keys followed by that of the later ones.
pub proof fn steps_of_concat(s: Seq<Key>, t: Seq<Key>)
    ensures
        steps_of(s + t) == steps_of(s) + steps_of(t),
    decreases t.len(),
{
    if t.len() == 0 {
        assert(s + t =~= s);
        assert(steps_of(t) =~= Seq::<MotionStep>::empty());
        assert(steps_of(s) + steps_of(t) =~= steps_of(s));
    } else {
        steps_of_concat(s, t.drop_last());
        assert((s + t).drop_last() =~= s + t.drop_last());
        assert((s + t).last() == t.last());
        assert(steps_of(s) + steps_of(t) =~= steps_of(s) + steps_of(t.drop_last()) + (match motion_of(
            t.last(),
        ) {
            Some(m) => seq![m],
            None => seq![],
        }));
    }
}

/// A single held key asks for its own motion, if it has one, and for
/// nothing else.
pub proof fn steps_of_one_key(k: Key)
    ensures
        steps_of(seq![k]) == match motion_of(k) {
            Some(m) => seq![m],
            None => Seq::<MotionStep>::empty(),
        },
{
    assert(seq![k].drop_last() =~= Seq::<Key>::empty());
    assert(seq![k].last() == k);
    assert(steps_of(Seq::<Key>::empty()) == Seq::<MotionStep>::empty());
    match motion_of(k) {
        Some(m) => {
            assert(Seq::<MotionStep>::empty() + seq![m] =~= seq![m]);
        },
        None => {
            assert(Seq::<MotionStep>::empty() + Seq::<MotionStep>::empty() =~= Seq::<
                MotionStep,
            >::empty());
        },
    }
}

/// Every held key that moves the camera asks for its motion, and every step
/// asked for comes from a held key.
pub proof fn steps_come_from_held_keys(s: Seq<Key>)
    ensures
        forall|i: int|
            0 <= i < s.len() && (#[trigger] motion_of(s[i])) is Some ==> steps_of(s).contains(
                motion_of(s[i])->0,
            ),
        forall|j: int|
            #![trigger steps_of(s)[j]]
            0 <= j < steps_of(s).len() ==> exists|i: int|
                0 <= i < s.len() && #[trigger] motion_of(s[i]) == Some(steps_of(s)[j]),
        steps_of(s).len() <= s.len(),
    decreases s.len(),
{
    if s.len() > 0 {
        let front = s.drop_last();
        steps_come_from_held_keys(front);
        let last = match motion_of(s.last()) {
            Some(m) => seq![m],
            None => Seq::<MotionStep>::empty(),
        };
        let all = steps_of(s);
        assert(all == steps_of(front) + last);
        assert forall|i: int|
            0 <= i < s.len() && (#[trigger] motion_of(s[i])) is Some implies all.contains(
            motion_of(s[i])->0,
        ) by {
            if i < s.len() - 1 {
                assert(front[i] == s[i]);
                let j = choose|j: int|
                    0 <= j < steps_of(front).len() && steps_of(front)[j] == motion_of(front[i])->0;
                assert(all[j] == steps_of(front)[j]);
            } else {
                assert(all[all.len() - 1] == motion_of(s[i])->0);
            }
        }
        assert forall|j: int| #![trigger all[j]] 0 <= j < all.len() implies exists|i: int|
            0 <= i < s.len() && #[trigger] motion_of(s[i]) == Some(all[j]) by {
            if j < steps_of(front).len() {
                assert(all[j] == steps_of(front)[j]);
                let i = choose|i: int|
                    0 <= i < front.len() && #[trigger] motion_of(front[i]) == Some(
                        steps_of(front)[j],
                    );
                assert(front[i] == s[i]);
            } else {
                assert(motion_of(s[s.len() - 1]) == Some(all[j]));
            }
        }
    }
}

/// Every key event is passed on as an update of the held keys, and every
/// resize as the new size, whatever the state of the drawing thread; other
/// events change nothing.
pub proof fn events_are_passed_on(render_healthy: bool, event: InputEvent)
    ensures
        forall|key: Key, pressed: bool|
            event == (InputEvent::Keyboard { key, pressed }) ==> response_to(
                render_healthy,
                event,
            ).effect == (Effect::Key { key, pressed }),
        forall|width: u32, height: u32|
            event == (InputEvent::Resized { width, height }) ==> response_to(
                render_healthy,
                event,
            ).effect == (Effect::Resize { width, height }),
        event == InputEvent::CloseRequested || event == InputEvent::Other ==> response_to(
            render_healthy,
            event,
        ).effect == Effect::Nothing,
        response_to(true, event).effect == response_to(false, event).effect,
{
}

/// The loop exits exactly when the drawing thread failed, when closing was
/// requested, or on an exit key going down or up; a failed drawing thread
/// ends the loop whatever the event.
pub proof fn exit_exactly_when_asked(render_healthy: bool, event: InputEvent)
    ensures
        !render_healthy ==> response_to(render_healthy, event).flow == Flow::Exit,
        event == InputEvent::CloseRequested ==> response_to(render_healthy, event).flow
            == Flow::Exit,
        forall|pressed: bool|
            event == (InputEvent::Keyboard { key: Key::Escape, pressed }) || event == (
            InputEvent::Keyboard { key: Key::Q, pressed }) ==> response_to(
                render_healthy,
                event,
            ).flow == Flow::Exit,
        render_healthy && event != InputEvent::CloseRequested && !(exists|pressed: bool|
            event == (InputEvent::Keyboard { key: Key::Escape, pressed }) || event == (
            InputEvent::Keyboard { key: Key::Q, pressed })) ==> response_to(
            render_healthy,
            event,
        ).flow == Flow::Wait,
{
    if render_healthy && event != InputEvent::CloseRequested {
        match event {
            InputEvent::Keyboard { key, pressed } => {
                if key == Key::Escape || key == Key::Q {
                    assert(event == (InputEvent::Keyboard { key, pressed }));
                }
            },
            _ => {},
        }
    }
}

} // verus!
