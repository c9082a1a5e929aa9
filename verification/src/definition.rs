//! Device Definitions: the commands a device understands and the MIDI they send.

use crate::project::Shape;
use crate::text::{
    decimal, law_decimal_spells_the_number, parse_u8, parse_u8_spec, same_text, split_words, views_of_strs,
    whitespace_words,
};
use vstd::prelude::*;

verus! {

/// One device type: its commands, optional Init messages and defaults.
#[derive(Clone, Debug)]
pub struct DeviceDefinition {
    pub id: String,
    pub version: String,
    pub meta: Meta,
    pub defaults: Option<Defaults>,
    pub init: Option<MessageList>,
    pub commands: Commands,
}

#[derive(Clone, Debug)]
pub struct Meta {
    pub manufacturer: String,
    pub model: String,
    pub author: Option<String>,
    pub sources: Vec<String>,
    pub description: Option<String>,
}

/// Default Device Settings applied when a track selects this definition.
#[derive(Clone, Debug)]
pub struct Defaults {
    /// Default latency compensation in milliseconds.
    pub latency: u32,
}

#[derive(Clone, Debug)]
pub struct Commands {
    pub items: Vec<Command>,
}

#[derive(Clone, Debug)]
pub enum Command {
    OneShot(OneShotCommand),
    Hold(HoldCommand),
    Automation(AutomationCommand),
}

/// The id of a command, whatever its type.
pub open spec fn command_id(c: Command) -> String {
    match c {
        Command::OneShot(x) => x.id,
        Command::Hold(x) => x.id,
        Command::Automation(x) => x.id,
    }
}

impl Command {
    pub fn id(&self) -> (res: &str)
        ensures
            res@ == command_id(*self)@,
    {
        match self {
            Command::OneShot(c) => c.id.as_str(),
            Command::Hold(c) => c.id.as_str(),
            Command::Automation(c) => c.id.as_str(),
        }
    }
}

#[derive(Clone, Debug)]
pub struct OneShotCommand {
    pub id: String,
    pub name: String,
    pub short: Option<String>,
    /// Typical execution latency of this command in ms.
    pub latency: Option<u32>,
    pub group: Option<String>,
    pub description: Option<String>,
    pub deterministic: bool,
    pub children: Vec<OneShotChild>,
}

#[derive(Clone, Debug)]
pub enum OneShotChild {
    Param(Param),
    NoteOn(NoteMsg),
    NoteOff(NoteMsg),
    ControlChange(CcMsg),
    ProgramChange(PcMsg),
}

#[derive(Clone, Debug)]
pub struct HoldCommand {
    pub id: String,
    pub name: String,
    pub short: Option<String>,
    /// Typical execution latency of this command in ms.
    pub latency: Option<u32>,
    pub group: Option<String>,
    pub description: Option<String>,
    pub params: Vec<Param>,
    pub engage: MessageList,
    pub disengage: MessageList,
}

#[derive(Clone, Debug)]
pub struct AutomationCommand {
    pub id: String,
    pub name: String,
    pub short: Option<String>,
    /// Typical execution latency of this command in ms.
    pub latency: Option<u32>,
    pub group: Option<String>,
    pub description: Option<String>,
    pub target: Target,
}

#[derive(Clone, Debug)]
pub struct Target {
    /// The controller to write. Optional: a Target may instead declare the
    /// messages it sends, for devices that are not driven by a plain CC.
    pub controller: Option<u8>,
    pub min: u8,
    pub max: u8,
    /// Curve types this target allows, e.g. "hold" for something that can only
    /// jump between values. Absent = all three.
    pub shapes: Option<String>,
    pub children: Vec<TargetChild>,
}

/// A Target holds an optional discrete value set plus, optionally, the messages
/// to send for a value (with `$value` standing in for it).
#[derive(Clone, Debug)]
pub enum TargetChild {
    Label(Label),
    NoteOn(NoteMsg),
    NoteOff(NoteMsg),
    ControlChange(CcMsg),
    ProgramChange(PcMsg),
}

#[derive(Clone, Debug)]
pub struct Param {
    pub id: String,
    pub name: String,
    pub min: u8,
    pub max: u8,
    pub default: Option<u8>,
    pub labels: Vec<Label>,
}

#[derive(Clone, Debug)]
pub struct Label {
    pub value: u8,
    pub short: Option<String>,
    pub text: String,
}

#[derive(Clone, Debug)]
pub struct MessageList {
    pub messages: Vec<Message>,
}

#[derive(Debug)]
pub enum Message {
    NoteOn(NoteMsg),
    NoteOff(NoteMsg),
    ControlChange(CcMsg),
    ProgramChange(PcMsg),
}

#[derive(Debug)]
pub struct NoteMsg {
    pub note: String,
    pub velocity: String,
}

#[derive(Debug)]
pub struct CcMsg {
    pub controller: u8,
    pub value: String,
}

#[derive(Debug)]
pub struct PcMsg {
    pub program: String,
}

impl Clone for NoteMsg {
    fn clone(&self) -> (res: Self)
        ensures
            res == *self,
    {
        NoteMsg { note: self.note.clone(), velocity: self.velocity.clone() }
    }
}

impl Clone for CcMsg {
    fn clone(&self) -> (res: Self)
        ensures
            res == *self,
    {
        CcMsg { controller: self.controller, value: self.value.clone() }
    }
}

impl Clone for PcMsg {
    fn clone(&self) -> (res: Self)
        ensures
            res == *self,
    {
        PcMsg { program: self.program.clone() }
    }
}

impl Clone for Message {
    fn clone(&self) -> (res: Self)
        ensures
            res == *self,
    {
        match self {
            Message::NoteOn(m) => Message::NoteOn(m.clone()),
            Message::NoteOff(m) => Message::NoteOff(m.clone()),
            Message::ControlChange(m) => Message::ControlChange(m.clone()),
            Message::ProgramChange(m) => Message::ProgramChange(m.clone()),
        }
    }
}

/// The parameters among a One-Shot's children, in document order.
pub open spec fn child_params(c: Seq<OneShotChild>) -> Seq<Param>
    decreases c.len(),
{
    if c.len() == 0 {
        seq![]
    } else {
        let rest = child_params(c.drop_last());
        match c.last() {
            OneShotChild::Param(p) => rest.push(p),
            _ => rest,
        }
    }
}

/// The messages among a One-Shot's children, in document order.
pub open spec fn child_messages(c: Seq<OneShotChild>) -> Seq<Message>
    decreases c.len(),
{
    if c.len() == 0 {
        seq![]
    } else {
        let rest = child_messages(c.drop_last());
        match c.last() {
            OneShotChild::Param(_) => rest,
            OneShotChild::NoteOn(m) => rest.push(Message::NoteOn(m)),
            OneShotChild::NoteOff(m) => rest.push(Message::NoteOff(m)),
            OneShotChild::ControlChange(m) => rest.push(Message::ControlChange(m)),
            OneShotChild::ProgramChange(m) => rest.push(Message::ProgramChange(m)),
        }
    }
}

/// The value labels among a Target's children, in document order.
pub open spec fn target_labels(c: Seq<TargetChild>) -> Seq<Label>
    decreases c.len(),
{
    if c.len() == 0 {
        seq![]
    } else {
        let rest = target_labels(c.drop_last());
        match c.last() {
            TargetChild::Label(l) => rest.push(l),
            _ => rest,
        }
    }
}

/// The messages a Target declares, in document order.
pub open spec fn target_messages_declared(c: Seq<TargetChild>) -> Seq<Message>
    decreases c.len(),
{
    if c.len() == 0 {
        seq![]
    } else {
        let rest = target_messages_declared(c.drop_last());
        match c.last() {
            TargetChild::Label(_) => rest,
            TargetChild::NoteOn(m) => rest.push(Message::NoteOn(m)),
            TargetChild::NoteOff(m) => rest.push(Message::NoteOff(m)),
            TargetChild::ControlChange(m) => rest.push(Message::ControlChange(m)),
            TargetChild::ProgramChange(m) => rest.push(Message::ProgramChange(m)),
        }
    }
}

pub open spec fn deref_params(v: Seq<&Param>) -> Seq<Param> {
    v.map_values(|p: &Param| *p)
}

pub open spec fn deref_labels(v: Seq<&Label>) -> Seq<Label> {
    v.map_values(|l: &Label| *l)
}

impl OneShotCommand {
    /// The command's parameters.
    pub fn params(&self) -> (res: Vec<&Param>)
        ensures
            deref_params(res@) == child_params(self.children@),
    {
        let mut res: Vec<&Param> = Vec::new();
        let n = self.children.len();
        let mut i: usize = 0;
        while i < n
            invariant
                n == self.children@.len(),
                i <= n,
                deref_params(res@) == child_params(self.children@.take(i as int)),
            decreases n - i,
        {
            assert(self.children@.take(i + 1).drop_last() == self.children@.take(i as int));
            match &self.children[i] {
                OneShotChild::Param(p) => {
                    res.push(p);
                },
                _ => {},
            }
            assert(deref_params(res@) =~= child_params(self.children@.take(i + 1)));
            i = i + 1;
        }
        assert(self.children@.take(n as int) == self.children@);
        res
    }

    /// The messages the command sends, in document order.
    pub fn messages(&self) -> (res: Vec<Message>)
        ensures
            res@ == child_messages(self.children@),
    {
        let mut res: Vec<Message> = Vec::new();
        let n = self.children.len();
        let mut i: usize = 0;
        while i < n
            invariant
                n == self.children@.len(),
                i <= n,
                res@ == child_messages(self.children@.take(i as int)),
            decreases n - i,
        {
            assert(self.children@.take(i + 1).drop_last() == self.children@.take(i as int));
            match &self.children[i] {
                OneShotChild::Param(_) => {},
                OneShotChild::NoteOn(m) => res.push(Message::NoteOn(m.clone())),
                OneShotChild::NoteOff(m) => res.push(Message::NoteOff(m.clone())),
                OneShotChild::ControlChange(m) => res.push(Message::ControlChange(m.clone())),
                OneShotChild::ProgramChange(m) => res.push(Message::ProgramChange(m.clone())),
            }
            i = i + 1;
        }
        assert(self.children@.take(n as int) == self.children@);
        res
    }
}

impl Target {
    /// The discrete value labels of the target.
    pub fn labels(&self) -> (res: Vec<&Label>)
        ensures
            deref_labels(res@) == target_labels(self.children@),
    {
        let mut res: Vec<&Label> = Vec::new();
        let n = self.children.len();
        let mut i: usize = 0;
        while i < n
            invariant
                n == self.children@.len(),
                i <= n,
                deref_labels(res@) == target_labels(self.children@.take(i as int)),
            decreases n - i,
        {
            assert(self.children@.take(i + 1).drop_last() == self.children@.take(i as int));
            match &self.children[i] {
                TargetChild::Label(l) => {
                    res.push(l);
                },
                _ => {},
            }
            assert(deref_labels(res@) =~= target_labels(self.children@.take(i + 1)));
            i = i + 1;
        }
        assert(self.children@.take(n as int) == self.children@);
        res
    }

    /// Messages declared on the target; empty means "a plain CC on `controller`".
    pub fn declared_messages(&self) -> (res: Vec<Message>)
        ensures
            res@ == target_messages_declared(self.children@),
    {
        let mut res: Vec<Message> = Vec::new();
        let n = self.children.len();
        let mut i: usize = 0;
        while i < n
            invariant
                n == self.children@.len(),
                i <= n,
                res@ == target_messages_declared(self.children@.take(i as int)),
            decreases n - i,
        {
            assert(self.children@.take(i + 1).drop_last() == self.children@.take(i as int));
            match &self.children[i] {
                TargetChild::Label(_) => {},
                TargetChild::NoteOn(m) => res.push(Message::NoteOn(m.clone())),
                TargetChild::NoteOff(m) => res.push(Message::NoteOff(m.clone())),
                TargetChild::ControlChange(m) => res.push(Message::ControlChange(m.clone())),
                TargetChild::ProgramChange(m) => res.push(Message::ProgramChange(m.clone())),
            }
            i = i + 1;
        }
        assert(self.children@.take(n as int) == self.children@);
        res
    }
}

/// The values of a Target's labels, in document order.
pub open spec fn label_values(c: Seq<TargetChild>) -> Seq<u8> {
    target_labels(c).map_values(|l: Label| l.value)
}

pub open spec fn strictly_ascending(s: Seq<u8>) -> bool {
    forall|i: int, j: int| 0 <= i < j < s.len() ==> s[i] < s[j]
}

/// How far apart two MIDI values are.
pub open spec fn distance(a: u8, b: u8) -> int {
    if a >= b {
        a - b
    } else {
        b - a
    }
}

/// `s` is the member of `values` nearest to `value`, the lower one on a tie.
pub open spec fn is_nearest(values: Seq<u8>, value: u8, s: u8) -> bool {
    &&& values.contains(s)
    &&& forall|t: u8|
        values.contains(t) ==> (distance(value, s) < distance(value, t) || (distance(value, s)
            == distance(value, t) && s <= t))
}

/// The curve type a word of the `shapes` attribute names, if any.
pub open spec fn word_shape(w: Seq<char>) -> Option<Shape> {
    if w == "linear"@ {
        Some(Shape::Linear)
    } else if w == "curve"@ {
        Some(Shape::Curve)
    } else if w == "hold"@ {
        Some(Shape::Hold)
    } else {
        None
    }
}

/// The curve types named by `words`, in order, unknown words dropped.
pub open spec fn shapes_named(words: Seq<Seq<char>>) -> Seq<Shape>
    decreases words.len(),
{
    if words.len() == 0 {
        seq![]
    } else {
        let rest = shapes_named(words.drop_last());
        match word_shape(words.last()) {
            Some(s) => rest.push(s),
            None => rest,
        }
    }
}

pub open spec fn all_shapes() -> Seq<Shape> {
    seq![Shape::Linear, Shape::Curve, Shape::Hold]
}

/// Curve types a target allows: those its `shapes` attribute names, or all three
/// when it names none (or is absent).
pub open spec fn allowed_shapes_of(t: Target) -> Seq<Shape> {
    match t.shapes {
        None => all_shapes(),
        Some(raw) => {
            let picked = shapes_named(whitespace_words(raw@));
            if picked.len() == 0 {
                all_shapes()
            } else {
                picked
            }
        },
    }
}

/// The shape every segment of a target must take, if there is no choice.
pub open spec fn forced_shape_of(t: Target) -> Option<Shape> {
    if label_values(t.children@).len() > 0 {
        Some(Shape::Hold)
    } else if only_one_shape(allowed_shapes_of(t)) {
        Some(allowed_shapes_of(t)[0])
    } else {
        None
    }
}

/// The list names one curve type, however often.
pub open spec fn only_one_shape(shapes: Seq<Shape>) -> bool {
    shapes.len() > 0 && forall|i: int| 0 <= i < shapes.len() ==> #[trigger] shapes[i] == shapes[0]
}

/// The curve types named by `words`, in order.
pub fn shapes_from_words(words: &Vec<&str>) -> (res: Vec<Shape>)
    ensures
        res@ == shapes_named(views_of_strs(words@)),
{
    let mut res: Vec<Shape> = Vec::new();
    let mut i: usize = 0;
    while i < words.len()
        invariant
            i <= words@.len(),
            res@ == shapes_named(views_of_strs(words@.take(i as int))),
        decreases words@.len() - i,
    {
        let w = words[i];
        assert(views_of_strs(words@.take(i + 1)).drop_last() =~= views_of_strs(
            words@.take(i as int),
        ));
        assert(views_of_strs(words@.take(i + 1)).last() == w@);
        if same_text(w, "linear") {
            res.push(Shape::Linear);
        } else if same_text(w, "curve") {
            res.push(Shape::Curve);
        } else if same_text(w, "hold") {
            res.push(Shape::Hold);
        }
        i = i + 1;
    }
    assert(words@.take(words@.len() as int) =~= words@);
    res
}

/// Inserts `v` into an ascending, duplicate-free list unless it is already there.
#[verifier::spinoff_prover]
fn insert_ascending(steps: &mut Vec<u8>, v: u8)
    requires
        strictly_ascending(old(steps)@),
    ensures
        strictly_ascending(final(steps)@),
        forall|x: u8| final(steps)@.contains(x) <==> (old(steps)@.contains(x) || x == v),
{
    let mut p: usize = 0;
    while p < steps.len() && steps[p] < v
        invariant
            p <= steps@.len(),
            steps@ == old(steps)@,
            strictly_ascending(steps@),
            forall|j: int| 0 <= j < p ==> steps@[j] < v,
        decreases steps@.len() - p,
    {
        p = p + 1;
    }
    if p < steps.len() && steps[p] == v {
        assert(steps@[p as int] == v);
        return;
    }
    let ghost before = steps@;
    assert(before == old(steps)@);
    steps.insert(p, v);
    assert(steps@ =~= before.take(p as int).push(v) + before.skip(p as int));
    assert forall|x: u8| steps@.contains(x) <==> (before.contains(x) || x == v) by {
        if steps@.contains(x) {
            let k = choose|k: int| 0 <= k < steps@.len() && steps@[k] == x;
            if k < p {
                assert(before[k] == x);
            } else if k > p {
                assert(before[k - 1] == x);
            }
        }
        if before.contains(x) {
            let k = choose|k: int| 0 <= k < before.len() && before[k] == x;
            if k < p {
                assert(steps@[k] == x);
            } else {
                assert(steps@[k + 1] == x);
            }
        }
        if x == v {
            assert(steps@[p as int] == v);
        }
    }
    assert(strictly_ascending(steps@)) by {
        assert forall|i: int, j: int| 0 <= i < j < steps@.len() implies steps@[i] < steps@[j] by {
            if j < p {
            } else if i < p && j == p {
            } else if i < p {
                assert(before[i] < before[j - 1]);
            } else if i == p {
                assert(steps@[j] == before[j - 1]);
            } else {
                assert(before[i - 1] < before[j - 1]);
            }
        }
    }
    assert(forall|x: u8| steps@.contains(x) <==> (old(steps)@.contains(x) || x == v));
}

impl Target {
    /// Curve types the editor may offer, in menu order.
    pub fn allowed_shapes(&self) -> (res: Vec<Shape>)
        ensures
            res@ == allowed_shapes_of(*self),
    {
        match &self.shapes {
            None => vec![Shape::Linear, Shape::Curve, Shape::Hold],
            Some(raw) => {
                let words = split_words(raw.as_str());
                let picked = shapes_from_words(&words);
                if picked.len() == 0 {
                    vec![Shape::Linear, Shape::Curve, Shape::Hold]
                } else {
                    picked
                }
            },
        }
    }

    /// The shape every segment must take, when there is no choice to make: a
    /// discrete value set can only jump, and a definition may allow just one type.
    pub fn forced_shape(&self) -> (res: Option<Shape>)
        ensures
            res == forced_shape_of(*self),
    {
        let steps = self.step_values();
        if steps.len() > 0 {
            assert(steps@.contains(steps@[0]));
            assert(label_values(self.children@).contains(steps@[0]));
            return Some(Shape::Hold);
        }
        proof {
            if label_values(self.children@).len() > 0 {
                assert(steps@.contains(label_values(self.children@)[0]));
            }
        }
        let allowed = self.allowed_shapes();
        if allowed.len() == 0 {
            return None;
        }
        let first = allowed[0];
        let mut i: usize = 1;
        while i < allowed.len()
            invariant
                1 <= i <= allowed@.len(),
                first == allowed@[0],
                allowed@ == allowed_shapes_of(*self),
                label_values(self.children@).len() == 0,
                forall|j: int| 0 <= j < i ==> #[trigger] allowed@[j] == first,
            decreases allowed@.len() - i,
        {
            if allowed[i] != first {
                assert(allowed@[i as int] != allowed@[0]);
                return None;
            }
            i = i + 1;
        }
        Some(first)
    }

    /// Allowed values for a stepped automation, ascending. Empty = continuous.
    pub fn step_values(&self) -> (res: Vec<u8>)
        ensures
            strictly_ascending(res@),
            forall|v: u8| res@.contains(v) <==> label_values(self.children@).contains(v),
    {
        let labels = self.labels();
        let ghost vals = label_values(self.children@);
        let mut steps: Vec<u8> = Vec::new();
        let mut i: usize = 0;
        while i < labels.len()
            invariant
                i <= labels@.len(),
                vals.len() == labels@.len(),
                forall|k: int| 0 <= k < vals.len() ==> vals[k] == labels@[k].value,
                strictly_ascending(steps@),
                forall|v: u8| steps@.contains(v) <==> vals.take(i as int).contains(v),
            decreases labels@.len() - i,
        {
            proof {
                assert(deref_labels(labels@)[i as int] == *labels@[i as int]);
            }
            let v = labels[i].value;
            insert_ascending(&mut steps, v);
            let ghost next = vals.take(i + 1);
            let ghost cur = vals.take(i as int);
            assert forall|x: u8| steps@.contains(x) <==> next.contains(x) by {
                if next.contains(x) {
                    let k = choose|k: int| 0 <= k < next.len() && next[k] == x;
                    if k < i {
                        assert(cur[k] == x);
                    }
                }
                if cur.contains(x) {
                    let k = choose|k: int| 0 <= k < cur.len() && cur[k] == x;
                    assert(next[k] == x);
                }
                assert(next[i as int] == v);
            }
            i = i + 1;
        }
        assert(vals.take(labels@.len() as int) =~= vals);
        steps
    }

    /// Snaps a raw value to the nearest allowed step value (lower on a tie).
    /// Returns the value unchanged when the target is continuous.
    pub fn snap(&self, value: u8) -> (res: u8)
        ensures
            label_values(self.children@).len() == 0 ==> res == value,
            label_values(self.children@).len() > 0 ==> is_nearest(
                label_values(self.children@),
                value,
                res,
            ),
    {
        let steps = self.step_values();
        proof {
            if label_values(self.children@).len() > 0 {
                assert(steps@.contains(label_values(self.children@)[0]));
            }
        }
        if steps.len() == 0 {
            return value;
        }
        snap_to(&steps, value)
    }
}

/// The step nearest to `value` in an ascending list, the lower one on a tie.
pub fn snap_to(steps: &Vec<u8>, value: u8) -> (res: u8)
    requires
        steps@.len() > 0,
        strictly_ascending(steps@),
    ensures
        is_nearest(steps@, value, res),
{
    let mut best: u8 = steps[0];
    let mut i: usize = 1;
    assert(steps@.take(1)[0] == best);
    while i < steps.len()
        invariant
            1 <= i <= steps@.len(),
            strictly_ascending(steps@),
            is_nearest(steps@.take(i as int), value, best),
        decreases steps@.len() - i,
    {
        let s = steps[i];
        let ghost prev = best;
        let d_best: u8 = if value >= best { value - best } else { best - value };
        let d_s: u8 = if value >= s { value - s } else { s - value };
        if d_s < d_best {
            best = s;
        }
        let ghost next = steps@.take(i + 1);
        let ghost cur = steps@.take(i as int);
        let ghost kp = choose|kp: int| 0 <= kp < cur.len() && cur[kp] == prev;
        assert(steps@[kp] < s);
        assert forall|t: u8| next.contains(t) implies (distance(value, best) < distance(value, t)
            || (distance(value, best) == distance(value, t) && best <= t)) by {
            let k = choose|k: int| 0 <= k < next.len() && next[k] == t;
            if k < i {
                assert(cur[k] == t);
                assert(cur.contains(t));
            } else {
                assert(t == s);
            }
        }
        assert(next.contains(best)) by {
            if d_s < d_best {
                assert(next[i as int] == s);
            } else {
                assert(next[kp] == prev);
            }
        }
        i = i + 1;
    }
    assert(steps@.take(steps@.len() as int) =~= steps@);
    best
}

/// A `Result` whose error text is seen as its characters.
pub open spec fn text_err<T>(r: Result<T, String>) -> Result<T, Seq<char>> {
    match r {
        Ok(v) => Ok(v),
        Err(e) => Err(e@),
    }
}

/// Parameter bindings seen as text.
pub open spec fn params_view(params: Seq<(String, u8)>) -> Seq<(Seq<char>, u8)> {
    params.map_values(|p: (String, u8)| (p.0@, p.1))
}

/// The value bound to `name`: the first entry with that name.
pub open spec fn param_lookup(params: Seq<(Seq<char>, u8)>, name: Seq<char>) -> Option<u8>
    decreases params.len(),
{
    if params.len() == 0 {
        None
    } else if params[0].0 == name {
        Some(params[0].1)
    } else {
        param_lookup(params.drop_first(), name)
    }
}

/// What a message value field resolves to: a `$name` placeholder takes the
/// parameter's value, anything else must be a literal 0..=127.
pub open spec fn resolve_value_spec(raw: Seq<char>, params: Seq<(Seq<char>, u8)>) -> Result<
    u8,
    Seq<char>,
> {
    if raw.len() > 0 && raw[0] == '$' {
        let name = raw.drop_first();
        match param_lookup(params, name) {
            Some(v) => Ok(v),
            None => Err("missing value for parameter '"@ + name + "'"@),
        }
    } else {
        match parse_u8_spec(raw) {
            Some(v) => if v <= 127 {
                Ok(v)
            } else {
                Err("invalid MIDI value '"@ + raw + "'"@)
            },
            None => Err("invalid MIDI value '"@ + raw + "'"@),
        }
    }
}

/// Whether a `String` holds exactly the text of `b`.
pub fn same_text_string(a: &String, b: &str) -> (res: bool)
    ensures
        res == (a@ == b@),
{
    same_text(a.as_str(), b)
}

/// Looks a parameter up by name.
pub fn lookup_param(params: &Vec<(String, u8)>, name: &str) -> (res: Option<u8>)
    ensures
        res == param_lookup(params_view(params@), name@),
{
    let ghost pv = params_view(params@);
    let mut i: usize = 0;
    assert(pv.skip(0) =~= pv);
    while i < params.len()
        invariant
            i <= params@.len(),
            pv == params_view(params@),
            param_lookup(pv.skip(i as int), name@) == param_lookup(pv, name@),
        decreases params@.len() - i,
    {
        assert(pv.skip(i as int).drop_first() =~= pv.skip(i + 1));
        assert(pv.skip(i as int)[0] == pv[i as int]);
        if same_text(params[i].0.as_str(), name) {
            return Some(params[i].1);
        }
        i = i + 1;
    }
    None
}

/// Resolves a message value field: either a literal 0..=127 or a `$param` placeholder.
pub fn resolve_value(raw: &str, params: &Vec<(String, u8)>) -> (res: Result<u8, String>)
    ensures
        text_err(res) == resolve_value_spec(raw@, params_view(params@)),
{
    let n = raw.unicode_len();
    if n > 0 && raw.get_char(0) == '$' {
        let name = raw.substring_char(1, n);
        assert(name@ =~= raw@.drop_first());
        match lookup_param(params, name) {
            Some(v) => Ok(v),
            None => {
                let mut e = String::from_str("missing value for parameter '");
                e.append(name);
                e.append("'");
                Err(e)
            },
        }
    } else {
        match parse_u8(raw) {
            Some(v) => {
                if v <= 127 {
                    return Ok(v);
                }
            },
            None => {},
        }
        let mut e = String::from_str("invalid MIDI value '");
        e.append(raw);
        e.append("'");
        Err(e)
    }
}

/// A Note message's velocity when the definition leaves it out.
pub fn default_velocity() -> (res: String)
    ensures
        res@ == "127"@,
{
    String::from_str("127")
}

/// A Target's upper bound when the definition leaves it out.
pub fn default_max() -> (res: u8)
    ensures
        res == 127,
{
    127
}

/// Whether a One-Shot is deterministic when the definition does not say.
pub fn default_true() -> (res: bool)
    ensures
        res,
{
    true
}

/// All definitions, or the first failure among them.
pub open spec fn collect_definitions(s: Seq<Result<DeviceDefinition, String>>) -> Result<
    Seq<DeviceDefinition>,
    String,
>
    decreases s.len(),
{
    if s.len() == 0 {
        Ok(seq![])
    } else {
        match s[0] {
            Err(e) => Err(e),
            Ok(d) => match collect_definitions(s.drop_first()) {
                Ok(rest) => Ok(seq![d] + rest),
                Err(e) => Err(e),
            },
        }
    }
}

pub open spec fn seq_result<T>(r: Result<Vec<T>, String>) -> Result<Seq<T>, String> {
    match r {
        Ok(v) => Ok(v@),
        Err(e) => Err(e),
    }
}

/// The bundled definitions, given the outcome of parsing each bundled file in
/// order: all of them, or the first parse failure.
pub fn bundled(parsed: Vec<Result<DeviceDefinition, String>>) -> (res: Result<
    Vec<DeviceDefinition>,
    String,
>)
    ensures
        seq_result(res) == collect_definitions(parsed@),
{
    let ghost all = parsed@;
    let mut rest = parsed;
    let mut out: Vec<DeviceDefinition> = Vec::new();
    let ghost mut k: int = 0;
    while rest.len() > 0
        invariant
            0 <= k <= all.len(),
            all == parsed@,
            rest@ == all.skip(k),
            collect_definitions(all) == match collect_definitions(all.skip(k)) {
                Ok(r) => Ok(out@ + r),
                Err(e) => Err(e),
            },
        decreases rest@.len(),
    {
        assert(all.skip(k).drop_first() =~= all.skip(k + 1));
        let item = rest.remove(0);
        assert(item == all.skip(k)[0]);
        match item {
            Err(e) => {
                assert(collect_definitions(all.skip(k)) == Err::<Seq<DeviceDefinition>, String>(e));
                assert(collect_definitions(all) == Err::<Seq<DeviceDefinition>, String>(e));
                assert(all == parsed@);
                return Err(e);
            },
            Ok(d) => {
                let ghost prev = out@;
                out.push(d);
                proof {
                    match collect_definitions(all.skip(k + 1)) {
                        Ok(r) => {
                            assert(prev + (seq![d] + r) =~= out@ + r);
                        },
                        Err(e) => {},
                    }
                    k = k + 1;
                }
            },
        }
    }
    assert(all.skip(k) =~= Seq::<Result<DeviceDefinition, String>>::empty());
    assert(out@ + seq![] =~= out@);
    Ok(out)
}

pub open spec fn has_id(s: Seq<DeviceDefinition>, id: Seq<char>) -> bool {
    exists|i: int| 0 <= i < s.len() && (#[trigger] s[i]).id@ == id
}

/// The definitions with repeated ids dropped, the first occurrence kept.
pub open spec fn dedup_by_id(s: Seq<DeviceDefinition>) -> Seq<DeviceDefinition>
    decreases s.len(),
{
    if s.len() == 0 {
        seq![]
    } else {
        let r = dedup_by_id(s.drop_last());
        if has_id(r, s.last().id@) {
            r
        } else {
            r.push(s.last())
        }
    }
}

fn contains_id(defs: &Vec<DeviceDefinition>, id: &String) -> (res: bool)
    ensures
        res == has_id(defs@, id@),
{
    let mut j: usize = 0;
    while j < defs.len()
        invariant
            j <= defs@.len(),
            forall|k: int| 0 <= k < j ==> defs@[k].id@ != id@,
        decreases defs@.len() - j,
    {
        if defs[j].id == *id {
            assert(defs@[j as int].id@ == id@);
            return true;
        }
        j = j + 1;
    }
    false
}

/// All available definitions: user-supplied first (they override bundled ones
/// by id), then bundled. De-duplicated by id, keeping the first occurrence.
pub fn all(user: Vec<DeviceDefinition>, bundled: Result<Vec<DeviceDefinition>, String>) -> (res:
    Result<Vec<DeviceDefinition>, String>)
    ensures
        match bundled {
            Err(e) => res == Err::<Vec<DeviceDefinition>, String>(e),
            Ok(b) => seq_result(res) == Ok::<Seq<DeviceDefinition>, String>(
                dedup_by_id(user@ + b@),
            ),
        },
{
    let mut rest = user;
    let mut b = match bundled {
        Err(e) => {
            return Err(e);
        },
        Ok(b) => b,
    };
    let ghost all = rest@ + b@;
    rest.append(&mut b);
    let mut out: Vec<DeviceDefinition> = Vec::new();
    let ghost mut k: int = 0;
    while rest.len() > 0
        invariant
            0 <= k <= all.len(),
            rest@ == all.skip(k),
            out@ == dedup_by_id(all.take(k)),
        decreases rest@.len(),
    {
        assert(all.skip(k).drop_first() =~= all.skip(k + 1));
        assert(all.take(k + 1).drop_last() =~= all.take(k));
        let d = rest.remove(0);
        if !contains_id(&out, &d.id) {
            out.push(d);
        }
        proof {
            k = k + 1;
        }
    }
    assert(all.take(k) =~= all);
    Ok(out)
}

/// Takes the first definition with the given id out of `defs`.
pub fn find(defs: Vec<DeviceDefinition>, id: &str) -> (res: Result<DeviceDefinition, String>)
    ensures
        match res {
            Ok(d) => exists|i: int|
                0 <= i < defs@.len() && defs@[i] == d && d.id@ == id@ && forall|j: int|
                    0 <= j < i ==> defs@[j].id@ != id@,
            Err(e) => (forall|j: int| 0 <= j < defs@.len() ==> defs@[j].id@ != id@) && e@
                == "unknown device definition '"@ + id@ + "'"@,
        },
{
    let ghost orig = defs@;
    let mut list = defs;
    let mut i: usize = 0;
    while i < list.len()
        invariant
            list@ == orig,
            orig == defs@,
            i <= orig.len(),
            forall|j: int| 0 <= j < i ==> orig[j].id@ != id@,
        decreases orig.len() - i,
    {
        if same_text(list[i].id.as_str(), id) {
            let d = list.remove(i);
            assert(orig[i as int] == d);
            assert(d.id@ == id@);
            return Ok(d);
        }
        i = i + 1;
    }
    let mut e = String::from_str("unknown device definition '");
    e.append(id);
    e.append("'");
    Err(e)
}

/// `d` is the first definition in `s` with its id.
pub open spec fn first_with_id(s: Seq<DeviceDefinition>, d: DeviceDefinition) -> bool {
    exists|i: int| 0 <= i < s.len() && s[i] == d && forall|j: int| 0 <= j < i ==> s[j].id@ != d.id@
}

/// De-duplicating by id leaves one definition per id, the first one listed:
/// no two results share an id, every listed id is there, and each result is the
/// first definition listed with its id. So a user definition overrides a
/// bundled one of the same id.
pub proof fn law_dedup_by_id(s: Seq<DeviceDefinition>)
    ensures
        forall|i: int, j: int|
            0 <= i < j < dedup_by_id(s).len() ==> (#[trigger] dedup_by_id(s)[i]).id@ != (
            #[trigger] dedup_by_id(s)[j]).id@,
        forall|i: int| 0 <= i < s.len() ==> has_id(dedup_by_id(s), (#[trigger] s[i]).id@),
        forall|k: int| 0 <= k < dedup_by_id(s).len() ==> first_with_id(s, #[trigger] dedup_by_id(s)[k]),
    decreases s.len(),
{
    if s.len() > 0 {
        let d = s.drop_last();
        law_dedup_by_id(d);
        let r = dedup_by_id(d);
        let x = s.last();
        assert forall|i: int| 0 <= i < d.len() implies has_id(r, (#[trigger] s[i]).id@) by {
            assert(s[i] == d[i]);
        }
        assert forall|k: int| 0 <= k < r.len() implies first_with_id(s, #[trigger] r[k]) by {
            assert(first_with_id(d, r[k]));
            let i = choose|i: int| 0 <= i < d.len() && d[i] == r[k] && forall|j: int| 0 <= j < i ==> d[j].id@ != r[k].id@;
            assert(s[i] == d[i]);
            assert forall|j: int| 0 <= j < i implies s[j].id@ != r[k].id@ by {
                assert(s[j] == d[j]);
            }
        }
        if !has_id(r, x.id@) {
            let out = r.push(x);
            assert forall|i: int, j: int| 0 <= i < j < out.len() implies (#[trigger] out[i]).id@ != (#[trigger] out[j]).id@ by {
                if j == r.len() {
                    assert(out[i] == r[i]);
                    if out[i].id@ == x.id@ {
                        assert(has_id(r, x.id@));
                    }
                } else {
                    assert(out[i] == r[i] && out[j] == r[j]);
                }
            }
            assert forall|i: int| 0 <= i < s.len() implies has_id(out, (#[trigger] s[i]).id@) by {
                if i < d.len() {
                    let k = choose|k: int| 0 <= k < r.len() && (#[trigger] r[k]).id@ == s[i].id@;
                    assert(out[k] == r[k]);
                } else {
                    assert(out[r.len() as int] == x);
                }
            }
            assert forall|k: int| 0 <= k < out.len() implies first_with_id(s, #[trigger] out[k]) by {
                if k < r.len() {
                    assert(out[k] == r[k]);
                } else {
                    assert(out[k] == x);
                    assert(s[s.len() - 1] == x);
                    assert forall|j: int| 0 <= j < s.len() - 1 implies s[j].id@ != x.id@ by {
                        if s[j].id@ == x.id@ {
                            assert(s[j] == d[j]);
                            assert(has_id(r, d[j].id@));
                        }
                    }
                }
            }
        } else {
            assert forall|i: int| 0 <= i < s.len() implies has_id(r, (#[trigger] s[i]).id@) by {
                if i == s.len() - 1 {
                    assert(s[i] == x);
                }
            }
        }
    }
}

/// A One-Shot child that is a message, not a parameter.
pub open spec fn is_message_child(x: OneShotChild) -> bool {
    !(x is Param)
}

/// The message a One-Shot child sends (a parameter sends none).
pub open spec fn child_message_of(x: OneShotChild) -> Message {
    match x {
        OneShotChild::NoteOn(m) => Message::NoteOn(m),
        OneShotChild::NoteOff(m) => Message::NoteOff(m),
        OneShotChild::ControlChange(m) => Message::ControlChange(m),
        OneShotChild::ProgramChange(m) => Message::ProgramChange(m),
        OneShotChild::Param(_) => arbitrary(),
    }
}

/// A One-Shot sends the messages among its children in document order: the
/// children that are no parameters, in order, each as its message.
pub proof fn law_one_shot_messages_keep_document_order(c: Seq<OneShotChild>)
    ensures
        child_messages(c) == c.filter(|x: OneShotChild| is_message_child(x)).map_values(
            |x: OneShotChild| child_message_of(x),
        ),
    decreases c.len(),
{
    reveal(Seq::filter);
    if c.len() > 0 {
        law_one_shot_messages_keep_document_order(c.drop_last());
        let f = c.drop_last().filter(|x: OneShotChild| is_message_child(x));
        if is_message_child(c.last()) {
            assert(f.push(c.last()).map_values(|x: OneShotChild| child_message_of(x)) =~= f.map_values(
                |x: OneShotChild| child_message_of(x),
            ).push(child_message_of(c.last())));
        }
    }
}

/// A One-Shot's parameters are its parameter children in document order.
pub proof fn law_one_shot_params_keep_document_order(c: Seq<OneShotChild>)
    ensures
        child_params(c) == c.filter(|x: OneShotChild| x is Param).map_values(|x: OneShotChild| x->Param_0),
    decreases c.len(),
{
    reveal(Seq::filter);
    if c.len() > 0 {
        law_one_shot_params_keep_document_order(c.drop_last());
        let f = c.drop_last().filter(|x: OneShotChild| x is Param);
        if c.last() is Param {
            assert(f.push(c.last()).map_values(|x: OneShotChild| x->Param_0) =~= f.map_values(
                |x: OneShotChild| x->Param_0,
            ).push(c.last()->Param_0));
        }
    }
}

/// A Target child that is a message, not a label.
pub open spec fn is_declared_message(x: TargetChild) -> bool {
    !(x is Label)
}

/// The message a Target child declares (a label declares none).
pub open spec fn target_message_of(x: TargetChild) -> Message {
    match x {
        TargetChild::NoteOn(m) => Message::NoteOn(m),
        TargetChild::NoteOff(m) => Message::NoteOff(m),
        TargetChild::ControlChange(m) => Message::ControlChange(m),
        TargetChild::ProgramChange(m) => Message::ProgramChange(m),
        TargetChild::Label(_) => arbitrary(),
    }
}

/// A Target's declared messages are its children that are no labels, in
/// document order.
pub proof fn law_target_messages_keep_document_order(c: Seq<TargetChild>)
    ensures
        target_messages_declared(c) == c.filter(|x: TargetChild| is_declared_message(x)).map_values(
            |x: TargetChild| target_message_of(x),
        ),
    decreases c.len(),
{
    reveal(Seq::filter);
    if c.len() > 0 {
        law_target_messages_keep_document_order(c.drop_last());
        let f = c.drop_last().filter(|x: TargetChild| is_declared_message(x));
        if is_declared_message(c.last()) {
            assert(f.push(c.last()).map_values(|x: TargetChild| target_message_of(x)) =~= f.map_values(
                |x: TargetChild| target_message_of(x),
            ).push(target_message_of(c.last())));
        }
    }
}

/// A Target's labels are its label children in document order.
pub proof fn law_target_labels_keep_document_order(c: Seq<TargetChild>)
    ensures
        target_labels(c) == c.filter(|x: TargetChild| x is Label).map_values(|x: TargetChild| x->Label_0),
    decreases c.len(),
{
    reveal(Seq::filter);
    if c.len() > 0 {
        law_target_labels_keep_document_order(c.drop_last());
        let f = c.drop_last().filter(|x: TargetChild| x is Label);
        if c.last() is Label {
            assert(f.push(c.last()).map_values(|x: TargetChild| x->Label_0) =~= f.map_values(
                |x: TargetChild| x->Label_0,
            ).push(c.last()->Label_0));
        }
    }
}

/// A parameter placeholder takes the value of the first binding of its name,
/// and names no value when nothing binds it.
pub proof fn law_first_binding_counts(params: Seq<(Seq<char>, u8)>, name: Seq<char>)
    ensures
        param_lookup(params, name) is None <==> forall|i: int| 0 <= i < params.len() ==> (#[trigger] params[i]).0 != name,
        param_lookup(params, name) matches Some(v) ==> exists|i: int|
            0 <= i < params.len() && params[i].0 == name && params[i].1 == v && forall|j: int|
                0 <= j < i ==> (#[trigger] params[j]).0 != name,
    decreases params.len(),
{
    if params.len() > 0 {
        let rest = params.drop_first();
        law_first_binding_counts(rest, name);
        if params[0].0 != name {
            assert forall|i: int| 0 < i < params.len() implies params[i] == rest[i - 1] by {}
            if param_lookup(params, name) is None {
                assert forall|i: int| 0 <= i < params.len() implies (#[trigger] params[i]).0 != name by {
                    if i > 0 {
                        assert(params[i] == rest[i - 1]);
                    }
                }
            } else {
                let v = param_lookup(params, name)->Some_0;
                let i = choose|i: int|
                    0 <= i < rest.len() && rest[i].0 == name && rest[i].1 == v && forall|j: int|
                        0 <= j < i ==> (#[trigger] rest[j]).0 != name;
                assert(params[i + 1] == rest[i]);
                assert forall|j: int| 0 <= j < i + 1 implies (#[trigger] params[j]).0 != name by {
                    if j > 0 {
                        assert(params[j] == rest[j - 1]);
                    }
                }
            }
            if forall|i: int| 0 <= i < params.len() ==> (#[trigger] params[i]).0 != name {
                assert forall|i: int| 0 <= i < rest.len() implies (#[trigger] rest[i]).0 != name by {
                    assert(rest[i] == params[i + 1]);
                }
            }
        }
    }
}

/// A message value written as a number 0..=127 is that number, whatever the
/// parameters; a `$name` placeholder is the first binding of `name`.
pub proof fn law_message_values(v: u8, params: Seq<(Seq<char>, u8)>, name: Seq<char>)
    ensures
        v <= 127 ==> resolve_value_spec(decimal(v as nat), params) == Ok::<u8, Seq<char>>(v),
        v > 127 ==> resolve_value_spec(decimal(v as nat), params) is Err,
        param_lookup(params, name) matches Some(b) ==> resolve_value_spec(seq!['$'] + name, params) == Ok::<
            u8,
            Seq<char>,
        >(b),
        param_lookup(params, name) is None ==> resolve_value_spec(seq!['$'] + name, params) is Err,
{
    law_decimal_spells_the_number(v as nat);
    let t = decimal(v as nat);
    assert(t[0] != '$' && t[0] != '+');
    assert(parse_u8_spec(t) == Some(v));
    assert((seq!['$'] + name).drop_first() =~= name);
}

} // verus!
