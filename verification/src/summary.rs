//! The UI-facing summary of a Device Definition.

use crate::definition::{
    Command, Label, Param, allowed_shapes_of, child_params, deref_labels, deref_params,
    target_labels, DeviceDefinition,
};
use crate::project::Shape;
use crate::text::{decimal, push_decimal};
use vstd::prelude::*;

verus! {

#[derive(Debug)]
pub struct DefinitionInfo {
    pub id: String,
    pub manufacturer: String,
    pub model: String,
    pub description: Option<String>,
    pub default_latency: u32,
    pub commands: Vec<CommandInfo>,
    /// Problems with the definition itself, shown in Device settings. Currently
    /// only: several Automation Commands writing the same controller, which is
    /// the one remaining way two curves can fight over one CC.
    pub warnings: Vec<String>,
}

#[derive(Debug)]
pub struct CommandInfo {
    pub id: String,
    pub name: String,
    pub short: Option<String>,
    pub latency: u32,
    /// "one-shot" | "hold" | "automation"
    pub command_type: String,
    pub group: Option<String>,
    pub description: Option<String>,
    pub deterministic: bool,
    pub params: Vec<ParamInfo>,
    /// Discrete value set for a stepped Automation (empty for continuous
    /// automations and all other command types).
    pub steps: Vec<LabelInfo>,
    /// Value range of an Automation target, `None` for other command types.
    pub range: Option<(u8, u8)>,
    /// Curve types this Automation allows ("linear"/"curve"/"hold"); empty for
    /// other command types. One entry = the editor offers no choice.
    pub shapes: Vec<String>,
}

#[derive(Debug)]
pub struct ParamInfo {
    pub id: String,
    pub name: String,
    pub min: u8,
    pub max: u8,
    pub default: Option<u8>,
    pub labels: Vec<LabelInfo>,
}

#[derive(Debug)]
pub struct LabelInfo {
    pub value: u8,
    pub text: String,
    pub short: Option<String>,
}

pub open spec fn label_info_of(l: Label) -> LabelInfo {
    LabelInfo { value: l.value, text: l.text, short: l.short }
}

pub open spec fn label_infos_of(ls: Seq<Label>) -> Seq<LabelInfo> {
    ls.map_values(|l: Label| label_info_of(l))
}

pub open spec fn param_info_matches(pi: ParamInfo, p: Param) -> bool {
    &&& pi.id == p.id
    &&& pi.name == p.name
    &&& pi.min == p.min
    &&& pi.max == p.max
    &&& pi.default == p.default
    &&& pi.labels@ == label_infos_of(p.labels@)
}

pub open spec fn params_match(infos: Seq<ParamInfo>, ps: Seq<Param>) -> bool {
    &&& infos.len() == ps.len()
    &&& forall|i: int| 0 <= i < ps.len() ==> param_info_matches(#[trigger] infos[i], ps[i])
}

pub open spec fn shape_name(s: Shape) -> Seq<char> {
    match s {
        Shape::Linear => "linear"@,
        Shape::Curve => "curve"@,
        Shape::Hold => "hold"@,
    }
}

pub open spec fn latency_or_zero(l: Option<u32>) -> u32 {
    match l {
        Some(v) => v,
        None => 0,
    }
}

pub open spec fn string_views(v: Seq<String>) -> Seq<Seq<char>> {
    v.map_values(|s: String| s@)
}

/// `ci` is the summary of command `c`.
pub open spec fn command_info_matches(ci: CommandInfo, c: Command) -> bool {
    match c {
        Command::OneShot(x) => {
            &&& ci.id == x.id
            &&& ci.name == x.name
            &&& ci.short == x.short
            &&& ci.latency == latency_or_zero(x.latency)
            &&& ci.command_type@ == "one-shot"@
            &&& ci.group == x.group
            &&& ci.description == x.description
            &&& ci.deterministic == x.deterministic
            &&& params_match(ci.params@, child_params(x.children@))
            &&& ci.steps@.len() == 0
            &&& ci.range is None
            &&& ci.shapes@.len() == 0
        },
        Command::Hold(x) => {
            &&& ci.id == x.id
            &&& ci.name == x.name
            &&& ci.short == x.short
            &&& ci.latency == latency_or_zero(x.latency)
            &&& ci.command_type@ == "hold"@
            &&& ci.group == x.group
            &&& ci.description == x.description
            &&& ci.deterministic
            &&& params_match(ci.params@, x.params@)
            &&& ci.steps@.len() == 0
            &&& ci.range is None
            &&& ci.shapes@.len() == 0
        },
        Command::Automation(x) => {
            &&& ci.id == x.id
            &&& ci.name == x.name
            &&& ci.short == x.short
            &&& ci.latency == latency_or_zero(x.latency)
            &&& ci.command_type@ == "automation"@
            &&& ci.group == x.group
            &&& ci.description == x.description
            &&& ci.deterministic
            &&& ci.params@.len() == 0
            &&& ci.steps@ == label_infos_of(target_labels(x.target.children@))
            &&& ci.range == Some((x.target.min, x.target.max))
            &&& string_views(ci.shapes@) == allowed_shapes_of(x.target).map_values(
                |s: Shape| shape_name(s),
            )
        },
    }
}

fn clone_text(o: &Option<String>) -> (res: Option<String>)
    ensures
        res == *o,
{
    match o {
        Some(s) => Some(s.clone()),
        None => None,
    }
}

fn label_info(l: &Label) -> (res: LabelInfo)
    ensures
        res == label_info_of(*l),
{
    LabelInfo { value: l.value, text: l.text.clone(), short: clone_text(&l.short) }
}

fn label_infos(ls: &Vec<&Label>) -> (res: Vec<LabelInfo>)
    ensures
        res@ == label_infos_of(deref_labels(ls@)),
{
    let mut res: Vec<LabelInfo> = Vec::new();
    let mut i: usize = 0;
    while i < ls.len()
        invariant
            i <= ls@.len(),
            res@ == label_infos_of(deref_labels(ls@.take(i as int))),
        decreases ls@.len() - i,
    {
        res.push(label_info(ls[i]));
        assert(label_infos_of(deref_labels(ls@.take(i + 1))) =~= label_infos_of(
            deref_labels(ls@.take(i as int)),
        ).push(label_info_of(*ls@[i as int])));
        i = i + 1;
    }
    assert(ls@.take(ls@.len() as int) =~= ls@);
    res
}

fn param_info(p: &Param) -> (res: ParamInfo)
    ensures
        param_info_matches(res, *p),
{
    let mut labels: Vec<LabelInfo> = Vec::new();
    let mut i: usize = 0;
    while i < p.labels.len()
        invariant
            i <= p.labels@.len(),
            labels@ == label_infos_of(p.labels@.take(i as int)),
        decreases p.labels@.len() - i,
    {
        labels.push(label_info(&p.labels[i]));
        assert(label_infos_of(p.labels@.take(i + 1)) =~= label_infos_of(
            p.labels@.take(i as int),
        ).push(label_info_of(p.labels@[i as int])));
        i = i + 1;
    }
    assert(p.labels@.take(p.labels@.len() as int) =~= p.labels@);
    ParamInfo {
        id: p.id.clone(),
        name: p.name.clone(),
        min: p.min,
        max: p.max,
        default: p.default,
        labels,
    }
}

fn param_infos(ps: &Vec<&Param>) -> (res: Vec<ParamInfo>)
    ensures
        params_match(res@, deref_params(ps@)),
{
    let mut res: Vec<ParamInfo> = Vec::new();
    let mut i: usize = 0;
    while i < ps.len()
        invariant
            i <= ps@.len(),
            params_match(res@, deref_params(ps@.take(i as int))),
        decreases ps@.len() - i,
    {
        res.push(param_info(ps[i]));
        i = i + 1;
    }
    assert(ps@.take(ps@.len() as int) =~= ps@);
    res
}

fn param_infos_owned(ps: &Vec<Param>) -> (res: Vec<ParamInfo>)
    ensures
        params_match(res@, ps@),
{
    let mut res: Vec<ParamInfo> = Vec::new();
    let mut i: usize = 0;
    while i < ps.len()
        invariant
            i <= ps@.len(),
            params_match(res@, ps@.take(i as int)),
        decreases ps@.len() - i,
    {
        res.push(param_info(&ps[i]));
        i = i + 1;
    }
    assert(ps@.take(ps@.len() as int) =~= ps@);
    res
}

fn shape_text(s: Shape) -> (res: String)
    ensures
        res@ == shape_name(s),
{
    match s {
        Shape::Linear => String::from_str("linear"),
        Shape::Curve => String::from_str("curve"),
        Shape::Hold => String::from_str("hold"),
    }
}

fn shape_texts(shapes: &Vec<Shape>) -> (res: Vec<String>)
    ensures
        string_views(res@) == shapes@.map_values(|s: Shape| shape_name(s)),
{
    let mut res: Vec<String> = Vec::new();
    let mut i: usize = 0;
    while i < shapes.len()
        invariant
            i <= shapes@.len(),
            string_views(res@) == shapes@.take(i as int).map_values(|s: Shape| shape_name(s)),
        decreases shapes@.len() - i,
    {
        let t = shape_text(shapes[i]);
        let ghost prev = res@;
        res.push(t);
        assert(string_views(res@) =~= string_views(prev).push(t@));
        assert(shapes@.take(i + 1).map_values(|s: Shape| shape_name(s)) =~= shapes@.take(
            i as int,
        ).map_values(|s: Shape| shape_name(s)).push(shape_name(shapes@[i as int])));
        i = i + 1;
    }
    assert(shapes@.take(shapes@.len() as int) =~= shapes@);
    res
}

fn latency_of(l: Option<u32>) -> (res: u32)
    ensures
        res == latency_or_zero(l),
{
    match l {
        Some(v) => v,
        None => 0,
    }
}

fn command_info(c: &Command) -> (res: CommandInfo)
    ensures
        command_info_matches(res, *c),
{
    match c {
        Command::OneShot(c) => {
            let ps = c.params();
            CommandInfo {
                id: c.id.clone(),
                name: c.name.clone(),
                short: clone_text(&c.short),
                latency: latency_of(c.latency),
                command_type: String::from_str("one-shot"),
                group: clone_text(&c.group),
                description: clone_text(&c.description),
                deterministic: c.deterministic,
                params: param_infos(&ps),
                steps: Vec::new(),
                range: None,
                shapes: Vec::new(),
            }
        },
        Command::Hold(c) => CommandInfo {
            id: c.id.clone(),
            name: c.name.clone(),
            short: clone_text(&c.short),
            latency: latency_of(c.latency),
            command_type: String::from_str("hold"),
            group: clone_text(&c.group),
            description: clone_text(&c.description),
            deterministic: true,
            params: param_infos_owned(&c.params),
            steps: Vec::new(),
            range: None,
            shapes: Vec::new(),
        },
        Command::Automation(c) => {
            let ls = c.target.labels();
            let shapes = c.target.allowed_shapes();
            CommandInfo {
                id: c.id.clone(),
                name: c.name.clone(),
                short: clone_text(&c.short),
                latency: latency_of(c.latency),
                command_type: String::from_str("automation"),
                group: clone_text(&c.group),
                description: clone_text(&c.description),
                deterministic: true,
                params: Vec::new(),
                steps: label_infos(&ls),
                range: Some((c.target.min, c.target.max)),
                shapes: shape_texts(&shapes),
            }
        },
    }
}

/// Names of the Automation Commands writing controller `cc`, in document order.
pub open spec fn names_on_controller(items: Seq<Command>, cc: u8) -> Seq<Seq<char>>
    decreases items.len(),
{
    if items.len() == 0 {
        seq![]
    } else {
        let r = names_on_controller(items.drop_last(), cc);
        match items.last() {
            Command::Automation(a) => if a.target.controller == Some(cc) {
                r.push(a.name@)
            } else {
                r
            },
            _ => r,
        }
    }
}

/// `parts` joined by `sep`.
pub open spec fn join(parts: Seq<Seq<char>>, sep: Seq<char>) -> Seq<char>
    decreases parts.len(),
{
    if parts.len() == 0 {
        seq![]
    } else if parts.len() == 1 {
        parts[0]
    } else {
        join(parts.drop_last(), sep) + sep + parts.last()
    }
}

pub open spec fn conflict_warning(cc: u8, names: Seq<Seq<char>>) -> Seq<char> {
    "CC "@ + decimal(cc as nat) + " is targeted by more than one Automation Command ("@ + join(
        names,
        ", "@,
    ) + ") \u{2014} their curves can conflict."@
}

/// The warnings for controllers `0..n`, ascending.
pub open spec fn warnings_below(items: Seq<Command>, n: nat) -> Seq<Seq<char>>
    decreases n,
{
    if n == 0 {
        seq![]
    } else {
        let r = warnings_below(items, (n - 1) as nat);
        let names = names_on_controller(items, (n - 1) as u8);
        if names.len() > 1 {
            r.push(conflict_warning((n - 1) as u8, names))
        } else {
            r
        }
    }
}

/// One warning per controller that several Automation Commands write,
/// ascending by controller.
pub open spec fn definition_warnings(items: Seq<Command>) -> Seq<Seq<char>> {
    warnings_below(items, 256)
}

fn automation_names(items: &Vec<Command>, cc: u8) -> (res: Vec<&str>)
    ensures
        crate::text::views_of_strs(res@) == names_on_controller(items@, cc),
{
    let mut res: Vec<&str> = Vec::new();
    let mut i: usize = 0;
    while i < items.len()
        invariant
            i <= items@.len(),
            crate::text::views_of_strs(res@) == names_on_controller(items@.take(i as int), cc),
        decreases items@.len() - i,
    {
        assert(items@.take(i + 1).drop_last() =~= items@.take(i as int));
        match &items[i] {
            Command::Automation(a) => {
                if a.target.controller == Some(cc) {
                    let ghost prev = res@;
                    res.push(a.name.as_str());
                    assert(crate::text::views_of_strs(res@) =~= crate::text::views_of_strs(
                        prev,
                    ).push(a.name@));
                }
            },
            _ => {},
        }
        i = i + 1;
    }
    assert(items@.take(items@.len() as int) =~= items@);
    res
}

fn conflict_text(cc: u8, names: &Vec<&str>) -> (res: String)
    requires
        names@.len() > 0,
    ensures
        res@ == conflict_warning(cc, crate::text::views_of_strs(names@)),
{
    let ghost ws = crate::text::views_of_strs(names@);
    let mut joined = String::from_str(names[0]);
    let mut i: usize = 1;
    assert(ws.take(1).drop_last() =~= Seq::<Seq<char>>::empty());
    while i < names.len()
        invariant
            1 <= i <= names@.len(),
            ws == crate::text::views_of_strs(names@),
            joined@ == join(ws.take(i as int), ", "@),
        decreases names@.len() - i,
    {
        joined.append(", ");
        joined.append(names[i]);
        assert(ws.take(i + 1).drop_last() =~= ws.take(i as int));
        i = i + 1;
    }
    assert(ws.take(names@.len() as int) =~= ws);
    let mut out = String::from_str("CC ");
    push_decimal(&mut out, cc as u64);
    out.append(" is targeted by more than one Automation Command (");
    out.append(joined.as_str());
    out.append(") \u{2014} their curves can conflict.");
    out
}

/// Each Automation Command owns its own curve, so one knob can never be
/// automated twice, unless the definition points two of them at the same
/// controller. That is the author's call, so it is a warning, not an error.
fn warnings(def: &DeviceDefinition) -> (res: Vec<String>)
    ensures
        string_views(res@) == definition_warnings(def.commands.items@),
{
    let items = &def.commands.items;
    let mut res: Vec<String> = Vec::new();
    let mut cc: u16 = 0;
    while cc < 256
        invariant
            cc <= 256,
            items == &def.commands.items,
            string_views(res@) == warnings_below(items@, cc as nat),
        decreases 256 - cc,
    {
        let names = automation_names(items, cc as u8);
        if names.len() > 1 {
            let w = conflict_text(cc as u8, &names);
            let ghost prev = res@;
            res.push(w);
            assert(string_views(res@) =~= string_views(prev).push(w@));
        }
        cc = cc + 1;
    }
    res
}

/// The summary of a definition shown by the frontend.
pub fn info(def: &DeviceDefinition) -> (res: DefinitionInfo)
    ensures
        res.id == def.id,
        res.manufacturer == def.meta.manufacturer,
        res.model == def.meta.model,
        res.description == def.meta.description,
        res.default_latency == match def.defaults {
            Some(d) => d.latency,
            None => 0,
        },
        res.commands@.len() == def.commands.items@.len(),
        forall|i: int|
            0 <= i < res.commands@.len() ==> command_info_matches(
                #[trigger] res.commands@[i],
                def.commands.items@[i],
            ),
        string_views(res.warnings@) == definition_warnings(def.commands.items@),
{
    let items = &def.commands.items;
    let mut commands: Vec<CommandInfo> = Vec::new();
    let mut i: usize = 0;
    while i < items.len()
        invariant
            i <= items@.len(),
            items == &def.commands.items,
            commands@.len() == i,
            forall|k: int|
                0 <= k < i ==> command_info_matches(#[trigger] commands@[k], items@[k]),
        decreases items@.len() - i,
    {
        commands.push(command_info(&items[i]));
        i = i + 1;
    }
    DefinitionInfo {
        id: def.id.clone(),
        manufacturer: def.meta.manufacturer.clone(),
        model: def.meta.model.clone(),
        description: clone_text(&def.meta.description),
        default_latency: match &def.defaults {
            Some(d) => d.latency,
            None => 0,
        },
        commands,
        warnings: warnings(def),
    }
}

/// Command `c` is an Automation Command writing controller `cc`.
pub open spec fn automates(c: Command, cc: u8) -> bool {
    c matches Command::Automation(a) && a.target.controller == Some(cc)
}

/// At least two Automation Commands of `items` write controller `cc`.
pub open spec fn shared_controller(items: Seq<Command>, cc: u8) -> bool {
    exists|i: int, j: int| 0 <= i < j < items.len() && automates(#[trigger] items[i], cc) && automates(#[trigger] items[j], cc)
}

proof fn lemma_names_on_controller(items: Seq<Command>, cc: u8)
    ensures
        names_on_controller(items, cc).len() > 0 <==> exists|i: int| 0 <= i < items.len() && automates(#[trigger] items[i], cc),
        names_on_controller(items, cc).len() > 1 <==> shared_controller(items, cc),
    decreases items.len(),
{
    if items.len() > 0 {
        let d = items.drop_last();
        lemma_names_on_controller(d, cc);
        let n = items.len();
        if automates(items.last(), cc) {
            if names_on_controller(d, cc).len() > 0 {
                let i = choose|i: int| 0 <= i < d.len() && automates(#[trigger] d[i], cc);
                assert(items[i] == d[i]);
                assert(automates(items[n - 1], cc));
                assert(shared_controller(items, cc));
            }
            assert(automates(items[n - 1], cc));
            if shared_controller(items, cc) {
                let (i, j) = choose|i: int, j: int|
                    0 <= i < j < items.len() && automates(#[trigger] items[i], cc) && automates(#[trigger] items[j], cc);
                assert(items[i] == d[i]);
                assert(d.len() > 0);
            }
        } else {
            if exists|i: int| 0 <= i < items.len() && automates(#[trigger] items[i], cc) {
                let i = choose|i: int| 0 <= i < items.len() && automates(#[trigger] items[i], cc);
                assert(i < n - 1);
                assert(d[i] == items[i]);
            }
            if exists|i: int| 0 <= i < d.len() && automates(#[trigger] d[i], cc) {
                let i = choose|i: int| 0 <= i < d.len() && automates(#[trigger] d[i], cc);
                assert(items[i] == d[i]);
            }
            if shared_controller(items, cc) {
                let (i, j) = choose|i: int, j: int|
                    0 <= i < j < items.len() && automates(#[trigger] items[i], cc) && automates(#[trigger] items[j], cc);
                assert(j < n - 1);
                assert(items[i] == d[i] && items[j] == d[j]);
                assert(shared_controller(d, cc));
            }
            if shared_controller(d, cc) {
                let (i, j) = choose|i: int, j: int|
                    0 <= i < j < d.len() && automates(#[trigger] d[i], cc) && automates(#[trigger] d[j], cc);
                assert(items[i] == d[i] && items[j] == d[j]);
                assert(shared_controller(items, cc));
            }
        }
    }
}

proof fn lemma_warnings_below(items: Seq<Command>, n: nat)
    requires
        n <= 256,
    ensures
        forall|cc: u8|
            cc < n && names_on_controller(items, cc).len() > 1 ==> #[trigger] warnings_below(items, n).contains(
                conflict_warning(cc, names_on_controller(items, cc)),
            ),
        forall|w: Seq<char>|
            #[trigger] warnings_below(items, n).contains(w) ==> exists|cc: u8|
                cc < n && names_on_controller(items, cc).len() > 1 && w == conflict_warning(
                    cc,
                    names_on_controller(items, cc),
                ),
    decreases n,
{
    if n > 0 {
        let p = (n - 1) as nat;
        lemma_warnings_below(items, p);
        let r = warnings_below(items, p);
        let last = p as u8;
        let names = names_on_controller(items, last);
        let out = warnings_below(items, n);
        assert forall|cc: u8| cc < n && names_on_controller(items, cc).len() > 1 implies #[trigger] out.contains(
            conflict_warning(cc, names_on_controller(items, cc)),
        ) by {
            if cc < p {
                assert(r.contains(conflict_warning(cc, names_on_controller(items, cc))));
                let k = choose|k: int| 0 <= k < r.len() && r[k] == conflict_warning(cc, names_on_controller(items, cc));
                if names.len() > 1 {
                    assert(out[k] == r[k]);
                } else {
                    assert(out == r);
                }
            } else {
                assert(cc == last);
                assert(out[r.len() as int] == conflict_warning(cc, names));
            }
        }
        assert forall|w: Seq<char>| #[trigger] out.contains(w) implies exists|cc: u8|
            cc < n && names_on_controller(items, cc).len() > 1 && w == conflict_warning(
                cc,
                names_on_controller(items, cc),
            ) by {
            let k = choose|k: int| 0 <= k < out.len() && out[k] == w;
            if k < r.len() {
                assert(out[k] == r[k]);
                assert(r.contains(w));
            } else {
                assert(w == conflict_warning(last, names));
                assert(last < n && names_on_controller(items, last).len() > 1);
            }
        }
    }
}

/// A definition is warned about every controller that two or more of its
/// Automation Commands write, whatever the controller, and about nothing else.
pub proof fn law_one_warning_per_shared_controller(items: Seq<Command>)
    ensures
        forall|cc: u8|
            shared_controller(items, cc) ==> #[trigger] definition_warnings(items).contains(
                conflict_warning(cc, names_on_controller(items, cc)),
            ),
        forall|w: Seq<char>|
            #[trigger] definition_warnings(items).contains(w) ==> exists|cc: u8|
                shared_controller(items, cc) && w == conflict_warning(cc, names_on_controller(items, cc)),
{
    lemma_warnings_below(items, 256);
    assert forall|cc: u8| shared_controller(items, cc) implies #[trigger] definition_warnings(items).contains(
        conflict_warning(cc, names_on_controller(items, cc)),
    ) by {
        lemma_names_on_controller(items, cc);
    }
    assert forall|w: Seq<char>| #[trigger] definition_warnings(items).contains(w) implies exists|cc: u8|
        shared_controller(items, cc) && w == conflict_warning(cc, names_on_controller(items, cc)) by {
        let cc = choose|cc: u8|
            cc < 256 && names_on_controller(items, cc).len() > 1 && w == conflict_warning(
                cc,
                names_on_controller(items, cc),
            );
        lemma_names_on_controller(items, cc);
    }
}

} // verus!
