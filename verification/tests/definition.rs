use rigpilot::definition::{
    all, bundled, find, resolve_value, AutomationCommand, CcMsg, Command, Commands, DeviceDefinition,
    HoldCommand, Label, Message, MessageList, Meta, OneShotChild, OneShotCommand, Param, PcMsg,
    Target, TargetChild,
};
use rigpilot::export::find_command;
use rigpilot::project::Shape;
use rigpilot::summary::info;

fn s(x: &str) -> String {
    x.to_string()
}

fn meta() -> Meta {
    Meta { manufacturer: s("M"), model: s("D"), author: None, sources: vec![], description: None }
}

fn def(id: &str, items: Vec<Command>) -> DeviceDefinition {
    DeviceDefinition {
        id: s(id),
        version: s("1"),
        meta: meta(),
        defaults: None,
        init: None,
        commands: Commands { items },
    }
}

fn label(value: u8, text: &str, short: Option<&str>) -> Label {
    Label { value, short: short.map(s), text: s(text) }
}

fn target(controller: Option<u8>, children: Vec<TargetChild>) -> Target {
    Target { controller, min: 0, max: 127, shapes: None, children }
}

fn automation(id: &str, name: &str, target: Target) -> Command {
    Command::Automation(AutomationCommand {
        id: s(id),
        name: s(name),
        short: None,
        latency: None,
        group: None,
        description: None,
        target,
    })
}

fn cc(controller: u8, value: &str) -> CcMsg {
    CcMsg { controller, value: s(value) }
}

fn one_shot(id: &str, children: Vec<OneShotChild>) -> Command {
    Command::OneShot(OneShotCommand {
        id: s(id),
        name: s(id),
        short: None,
        latency: None,
        group: None,
        description: None,
        deterministic: true,
        children,
    })
}

/// `<Automation id="a" name="A"><Target controller="11">` with Off/On labels.
fn on_off_target() -> Target {
    target(
        Some(11),
        vec![
            TargetChild::Label(label(0, "Off", Some("Off"))),
            TargetChild::Label(label(127, "On", Some("On"))),
        ],
    )
}

#[test]
fn target_snaps_to_nearest_discrete_value() {
    let def = def("x", vec![automation("a", "A", on_off_target())]);
    let Command::Automation(c) = &def.commands.items[0] else {
        panic!("expected automation");
    };
    assert_eq!(c.target.step_values(), vec![0, 127]);
    assert_eq!(c.target.snap(0), 0);
    assert_eq!(c.target.snap(63), 0); // nearer 0
    assert_eq!(c.target.snap(64), 127); // nearer 127
    assert_eq!(c.target.snap(127), 127);
}

#[test]
fn continuous_target_does_not_snap() {
    let def = def("x", vec![automation("a", "A", target(Some(7), vec![]))]);
    let Command::Automation(c) = &def.commands.items[0] else {
        panic!("expected automation");
    };
    assert!(c.target.step_values().is_empty());
    assert_eq!(c.target.snap(42), 42);
}

#[test]
fn automation_steps_exposed_in_info() {
    let def = def("x", vec![automation("a", "A", on_off_target())]);
    let cmd = &info(&def).commands[0];
    assert_eq!(cmd.command_type, "automation");
    assert_eq!(cmd.steps.len(), 2);
    assert_eq!(cmd.steps[1].value, 127);
    assert_eq!(cmd.steps[1].short.as_deref(), Some("On"));
}

/// The part of the Kemper definition the export tests rely on, padded to the
/// size of the real one.
fn kemper() -> DeviceDefinition {
    let labels = (0..125u8)
        .map(|i| label(i, &format!("Performance {}", i + 1), None))
        .collect();
    let mut items = vec![
        one_shot(
            "preselect-performance",
            vec![
                OneShotChild::Param(Param {
                    id: s("performance"),
                    name: s("Performance"),
                    min: 0,
                    max: 124,
                    default: None,
                    labels,
                }),
                OneShotChild::ControlChange(cc(47, "$performance")),
            ],
        ),
        one_shot("load-slot-2", vec![OneShotChild::ControlChange(cc(51, "1"))]),
        Command::Hold(HoldCommand {
            id: s("delay-hold"),
            name: s("Delay Hold"),
            short: None,
            latency: None,
            group: None,
            description: None,
            params: vec![],
            engage: MessageList { messages: vec![Message::ControlChange(cc(35, "1"))] },
            disengage: MessageList { messages: vec![Message::ControlChange(cc(35, "0"))] },
        }),
        automation("volume-pedal", "Volume Pedal", target(Some(7), vec![])),
    ];
    for k in 0..30u8 {
        items.push(one_shot(&format!("switch-{k}"), vec![OneShotChild::ControlChange(cc(80, "1"))]));
    }
    def("kemper-profiler-stage", items)
}

fn qlcplus() -> DeviceDefinition {
    let mut t = target(
        None,
        vec![TargetChild::ProgramChange(PcMsg { program: s("$value") })],
    );
    t.shapes = Some(s("hold"));
    def("qlcplus-horizont-hilo", vec![automation("select-song", "Select Song", t)])
}

#[test]
fn all_bundled_definitions_parse() {
    // Definitions built here stand in for the six bundled files.
    let parsed = vec![
        Ok(kemper()),
        Ok(def("neural-dsp-quad-cortex", vec![])),
        Ok(def("harley-benton-dnafx-git-pro", vec![])),
        Ok(def("fractal-axe-fx-iii", vec![])),
        Ok(def("headrush-prime", vec![])),
        Ok(qlcplus()),
    ];
    let defs = bundled(parsed).unwrap();
    assert_eq!(defs.len(), 6);
    let kemper = defs.iter().find(|d| d.id == "kemper-profiler-stage").unwrap();
    assert!(kemper.commands.items.len() > 30);
    // the performance param carries its 125 labels
    let k = find_command(kemper, "preselect-performance").unwrap();
    let Command::OneShot(pre) = &kemper.commands.items[k] else {
        panic!()
    };
    let param = pre.params()[0];
    assert_eq!(param.labels.len(), 125);
    assert_eq!(param.labels[5].text, "Performance 6");
}

#[test]
fn bundled_reports_the_first_parse_failure() {
    let parsed = vec![Ok(def("a", vec![])), Err(s("first")), Err(s("second"))];
    assert_eq!(bundled(parsed).unwrap_err(), "first");
}

#[test]
fn user_definitions_override_bundled_ones_by_id() {
    let mut mine = def("kemper-profiler-stage", vec![]);
    mine.version = s("custom");
    let defs = all(vec![mine, def("extra", vec![])], Ok(vec![kemper(), qlcplus()])).unwrap();
    let ids: Vec<&str> = defs.iter().map(|d| d.id.as_str()).collect();
    assert_eq!(ids, vec!["kemper-profiler-stage", "extra", "qlcplus-horizont-hilo"]);
    assert_eq!(defs[0].version, "custom");
}

#[test]
fn all_fails_when_the_bundled_set_does() {
    assert_eq!(all(vec![def("a", vec![])], Err(s("broken"))).unwrap_err(), "broken");
}

#[test]
fn find_takes_the_first_definition_with_the_id() {
    let mut second = def("x", vec![]);
    second.version = s("2");
    let found = find(vec![def("a", vec![]), def("x", vec![]), second], "x").unwrap();
    assert_eq!(found.version, "1");
    assert_eq!(
        find(vec![def("a", vec![])], "nope").unwrap_err(),
        "unknown device definition 'nope'"
    );
}

#[test]
fn resolve_value_reads_literals_and_parameters() {
    let params = vec![(s("performance"), 5u8), (s("performance"), 9u8)];
    assert_eq!(resolve_value("0", &params), Ok(0));
    assert_eq!(resolve_value("127", &params), Ok(127));
    assert_eq!(resolve_value("$performance", &params), Ok(5));
    assert_eq!(
        resolve_value("128", &params),
        Err(s("invalid MIDI value '128'"))
    );
    assert_eq!(resolve_value("x", &params), Err(s("invalid MIDI value 'x'")));
    assert_eq!(
        resolve_value("$slot", &params),
        Err(s("missing value for parameter 'slot'"))
    );
}

#[test]
fn a_target_lists_its_allowed_shapes_in_menu_order() {
    let mut t = target(Some(1), vec![]);
    assert_eq!(t.allowed_shapes(), vec![Shape::Linear, Shape::Curve, Shape::Hold]);
    assert_eq!(t.forced_shape(), None);
    t.shapes = Some(s(" curve  bogus linear "));
    assert_eq!(t.allowed_shapes(), vec![Shape::Curve, Shape::Linear]);
    assert_eq!(t.forced_shape(), None);
    t.shapes = Some(s("nothing-known"));
    assert_eq!(t.allowed_shapes(), vec![Shape::Linear, Shape::Curve, Shape::Hold]);
    t.shapes = Some(s("curve"));
    assert_eq!(t.forced_shape(), Some(Shape::Curve));
    // one curve type named twice is still one
    t.shapes = Some(s("hold hold"));
    assert_eq!(t.allowed_shapes(), vec![Shape::Hold, Shape::Hold]);
    assert_eq!(t.forced_shape(), Some(Shape::Hold));
    // a discrete value set always jumps
    assert_eq!(on_off_target().forced_shape(), Some(Shape::Hold));
}

#[test]
fn step_values_are_sorted_and_distinct() {
    let t = target(
        Some(1),
        vec![
            TargetChild::Label(label(90, "c", None)),
            TargetChild::ControlChange(cc(3, "$value")),
            TargetChild::Label(label(10, "a", None)),
            TargetChild::Label(label(90, "d", None)),
            TargetChild::Label(label(40, "b", None)),
        ],
    );
    assert_eq!(t.step_values(), vec![10, 40, 90]);
    // a tie goes to the lower value
    assert_eq!(t.snap(25), 10);
    assert_eq!(t.snap(65), 40);
    assert_eq!(t.snap(66), 90);
    assert_eq!(t.labels().len(), 4);
    assert_eq!(t.declared_messages().len(), 1);
}

#[test]
fn one_shot_splits_params_from_messages() {
    let c = kemper();
    let Command::OneShot(pre) = &c.commands.items[0] else {
        panic!()
    };
    assert_eq!(pre.params().len(), 1);
    let msgs = pre.messages();
    assert_eq!(msgs.len(), 1);
    let Message::ControlChange(m) = &msgs[0] else {
        panic!()
    };
    assert_eq!(m.controller, 47);
    assert_eq!(m.value, "$performance");
    assert_eq!(c.commands.items[2].id(), "delay-hold");
}

#[test]
fn info_summarises_every_command_type() {
    let mut d = kemper();
    d.defaults = Some(rigpilot::definition::Defaults { latency: 12 });
    let i = info(&d);
    assert_eq!(i.id, "kemper-profiler-stage");
    assert_eq!(i.manufacturer, "M");
    assert_eq!(i.default_latency, 12);
    assert_eq!(i.commands.len(), d.commands.items.len());
    assert_eq!(i.commands[0].command_type, "one-shot");
    assert_eq!(i.commands[0].params.len(), 1);
    assert_eq!(i.commands[0].params[0].labels.len(), 125);
    assert_eq!(i.commands[2].command_type, "hold");
    assert!(i.commands[2].deterministic);
    assert_eq!(i.commands[3].command_type, "automation");
    assert_eq!(i.commands[3].range, Some((0, 127)));
    assert_eq!(i.commands[3].shapes, vec!["linear", "curve", "hold"]);
    assert!(i.warnings.is_empty());
    let q = info(&qlcplus());
    assert_eq!(q.commands[0].shapes, vec!["hold"]);
    assert_eq!(q.default_latency, 0);
}

#[test]
fn two_automations_on_one_controller_are_warned_about() {
    let d = def(
        "w",
        vec![
            automation("b", "Wah", target(Some(11), vec![])),
            automation("a", "Volume", target(Some(7), vec![])),
            automation("c", "Drive", target(Some(11), vec![])),
            automation("d", "Level", target(Some(7), vec![])),
            automation("e", "Song", target(None, vec![])),
        ],
    );
    assert_eq!(
        info(&d).warnings,
        vec![
            s("CC 7 is targeted by more than one Automation Command (Volume, Level) \u{2014} their curves can conflict."),
            s("CC 11 is targeted by more than one Automation Command (Wah, Drive) \u{2014} their curves can conflict."),
        ]
    );
}
