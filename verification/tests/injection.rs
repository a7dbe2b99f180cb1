use zmaxion::injection::{
    join_comma,
    all_combinations_vec, call_generics, combination_type, dynamic_bound_name, injected_topic,
    lifetimes_to_add, registration_rows, supertraits, with_lifetimes, BoundsError, PathArguments,
    TopicCombination, TopicKind, combination_types, plan_param, ParamError, ParamPlan, ParamType,
};

fn strings(v: &[&str]) -> Vec<String> {
    v.iter().map(|s| s.to_string()).collect()
}

fn flags(c: &TopicCombination) -> (bool, bool, bool, bool) {
    (c.is_async, c.group, c.ack, c.trace)
}

#[test]
fn twelve_combinations_are_offered() {
    let all = all_combinations_vec();
    assert_eq!(all.len(), 12);
    assert_eq!(flags(&all[0]), (false, false, true, true));
    assert_eq!(flags(&all[5]), (true, false, false, false));
    assert_eq!(flags(&all[11]), (true, true, false, false));
}

#[test]
fn plain_reader_takes_every_combination() {
    let t = match injected_topic(&strings(&["TopicReader<'a,Ping>"])) {
        Ok(t) => t,
        Err(_) => panic!("expected a topic"),
    };
    assert!(matches!(t.kind, TopicKind::Reader));
    assert_eq!(t.topic_name, "TopicReader");
    assert_eq!(t.event, "Ping");
    assert!(t.other_bounds.is_empty());
    assert_eq!(t.combinations.len(), 12);
}

#[test]
fn markers_narrow_the_combinations() {
    let t = match injected_topic(&strings(&["Async", "TopicWriter<'w,Msg>", "Ack"])) {
        Ok(t) => t,
        Err(_) => panic!("expected a topic"),
    };
    assert!(matches!(t.kind, TopicKind::Writer));
    assert_eq!(t.event, "Msg");
    assert_eq!(t.other_bounds, strings(&["Ack", "Async"]));
    let found: Vec<(bool, bool, bool, bool)> = t.combinations.iter().map(flags).collect();
    assert_eq!(
        found,
        vec![(true, false, true, true), (true, false, true, false), (true, true, true, true), (true, true, true, false)]
    );
    assert_eq!(dynamic_bound_name(&t), "TopicWriterAckAsync");
}

#[test]
fn reader_bound_wins_over_writer_bound() {
    match injected_topic(&strings(&["TopicWriter<'a,A>", "TopicReader<'a,B>"])) {
        Err(BoundsError::Unexpected(left)) => assert_eq!(left, strings(&["TopicWriter<'a,A>"])),
        _ => panic!("expected the writer bound to be left over"),
    }
}

#[test]
fn bounds_without_topic_are_refused() {
    match injected_topic(&strings(&["Ack", "Group"])) {
        Err(BoundsError::NoTopicBound(all)) => assert_eq!(all, strings(&["Ack", "Group"])),
        _ => panic!("expected NoTopicBound"),
    }
}

#[test]
fn topic_bound_without_event_is_refused() {
    match injected_topic(&strings(&["TopicReader<Ping>"])) {
        Err(BoundsError::MissingEventType(t)) => assert_eq!(t, "TopicReader<Ping>"),
        _ => panic!("expected MissingEventType"),
    }
}

#[test]
fn unknown_bounds_are_refused() {
    match injected_topic(&strings(&["TopicReader<'a,E>", "Clone", "Bevy"])) {
        Err(BoundsError::Unexpected(left)) => assert_eq!(left, strings(&["Clone"])),
        _ => panic!("expected Unexpected"),
    }
}

#[test]
fn sorted_bounds_decide_which_marker_takes_which() {
    match injected_topic(&strings(&["TopicReader<'a,E>", "Bevy", "AckBevy"])) {
        Err(BoundsError::Unexpected(left)) => assert_eq!(left, strings(&["Bevy"])),
        _ => panic!("expected Unexpected"),
    }
}

#[test]
fn combination_types_are_spelled_out() {
    let c = TopicCombination { is_async: false, group: true, ack: true, trace: true };
    assert_eq!(
        combination_type(TopicKind::Reader, &c, "Ev"),
        "BevyGroupReader<'w, 's, AckEvent<TraceEvent<Ev>>>"
    );
    let c = TopicCombination { is_async: true, group: false, ack: false, trace: false };
    assert_eq!(combination_type(TopicKind::Writer, &c, "Ev"), "AsyncWriter<'w, 's, Ev>");
    let c = TopicCombination { is_async: true, group: false, ack: true, trace: false };
    assert_eq!(combination_type(TopicKind::Writer, &c, "X"), "AsyncWriter<'w, 's, AckEvent<X>>");
}

#[test]
fn registration_rows_vary_one_parameter_at_a_time() {
    let rows = registration_rows(&vec![2, 3]);
    assert_eq!(rows, vec![vec![0, 0], vec![1, 0], vec![0, 0], vec![0, 1], vec![0, 2]]);
    assert!(registration_rows(&vec![]).is_empty());
    assert_eq!(registration_rows(&vec![1]), vec![vec![0]]);
}

#[test]
fn injected_generics_are_not_passed_on() {
    assert_eq!(call_generics(&strings(&["T", "__P0", "U", "__P1", "_P"])), strings(&["T", "U", "_P"]));
}

#[test]
fn missing_lifetimes_are_added() {
    assert_eq!(lifetimes_to_add(&strings(&[])), strings(&["'w", "'s"]));
    assert_eq!(lifetimes_to_add(&strings(&["'s"])), strings(&["'w"]));
    assert_eq!(lifetimes_to_add(&strings(&["'w", "'a"])), strings(&["'s"]));
    assert!(lifetimes_to_add(&strings(&["'s", "'w"])).is_empty());
}

#[test]
fn type_arguments_get_lifetimes() {
    match with_lifetimes(PathArguments::Absent) {
        PathArguments::AngleBracketed(a) => assert_eq!(a, strings(&["'w", "'s"])),
        _ => panic!("expected arguments"),
    }
    match with_lifetimes(PathArguments::AngleBracketed(strings(&["T"]))) {
        PathArguments::AngleBracketed(a) => assert_eq!(a, strings(&["'s", "'w", "T"])),
        _ => panic!("expected arguments"),
    }
    assert!(matches!(with_lifetimes(PathArguments::Parenthesized), PathArguments::Parenthesized));
}

#[test]
fn all_supertraits_cover_every_run() {
    let r = supertraits(&"Main".to_string(), &strings(&["C", "A", "B"]), true);
    let names: Vec<String> = r.iter().map(|s| s.name.clone()).collect();
    assert_eq!(names, strings(&["MainA", "MainB", "MainC", "MainAB", "MainBC", "MainABC"]));
    assert_eq!(r[4].bounds, strings(&["B", "C"]));
}

#[test]
fn supertraits_for_a_trait_hold_it() {
    let r = supertraits(&"Main".to_string(), &strings(&["B", "A", "C"]), false);
    let names: Vec<String> = r.iter().map(|s| s.name.clone()).collect();
    assert_eq!(names, strings(&["MainB", "MainAB", "MainBC", "MainABC"]));
}

#[test]
fn bound_errors_read_as_messages() {
    use_message(BoundsError::Unexpected(strings(&["Clone", "Copy"])), "Unexpected trait bounds Clone, Copy");
    use_message(BoundsError::NoTopicBound(strings(&[])), "Unexpected trait bounds ");
    use_message(
        BoundsError::MissingEventType("TopicReader<E>".to_string()),
        "Expected a lifetime and an event type in TopicReader<E>",
    );
    assert_eq!(join_comma(&strings(&["a"])), "a");
}

fn use_message(e: BoundsError, expected: &str) {
    assert_eq!(e.message(), expected);
}

#[test]
fn other_bounds_come_sorted() {
    let t = match injected_topic(&strings(&["Trace", "TopicReader<'a,E>", "Ack", "Group"])) {
        Ok(t) => t,
        Err(e) => panic!("{}", e.message()),
    };
    assert_eq!(t.other_bounds, strings(&["Ack", "Group", "Trace"]));
    let found: Vec<(bool, bool, bool, bool)> = t.combinations.iter().map(flags).collect();
    assert_eq!(found, vec![(false, true, true, true), (true, true, true, true)]);
}

#[test]
fn bound_errors_carry_help_and_note() {
    let e = BoundsError::Unexpected(strings(&["Send"]));
    assert_eq!(
        e.help().unwrap(),
        "The following trait bounds are available only Bevy or Async, Ack, Trace, Group"
    );
    assert_eq!(
        e.note().unwrap(),
        "To use generic arguments instead of injected ones use generic types rather than impl Trait"
    );
    assert!(BoundsError::NoTopicBound(strings(&[])).help().is_some());
    let missing = BoundsError::MissingEventType("TopicReader<E>".to_string());
    assert!(missing.help().is_none());
    assert!(missing.note().is_none());
}

#[test]
fn parameters_are_planned_by_their_type() {
    match plan_param(ParamType::ImplTrait(strings(&["TopicReader<'a,E>", "Ack"]))) {
        Ok(ParamPlan::Injected { topic, dyn_bound: None }) => {
            assert_eq!(topic.topic_name, "TopicReader");
            assert_eq!(topic.event, "E");
        }
        _ => panic!("expected an injected generic"),
    }
    match plan_param(ParamType::DynRef(strings(&["TopicWriter<'a,E>", "Group", "Ack"]))) {
        Ok(ParamPlan::Injected { topic, dyn_bound: Some(name) }) => {
            assert_eq!(name, "TopicWriterAckGroup");
            assert_eq!(topic.other_bounds, strings(&["Ack", "Group"]));
        }
        _ => panic!("expected an injected trait object"),
    }
    match plan_param(ParamType::Path(PathArguments::Absent)) {
        Ok(ParamPlan::Path(PathArguments::AngleBracketed(a))) => assert_eq!(a, strings(&["'w", "'s"])),
        _ => panic!("expected lifetimes"),
    }
    assert!(matches!(plan_param(ParamType::Other), Ok(ParamPlan::Unchanged)));
    match plan_param(ParamType::Receiver) {
        Err(e) => assert_eq!(e.message(), "Expected a typed paramater"),
        _ => panic!("expected an error"),
    }
    match plan_param(ParamType::RefToParenOther) {
        Err(e) => assert_eq!(e.message(), "Expected a trait object"),
        _ => panic!("expected an error"),
    }
    match plan_param(ParamType::RefToOther) {
        Err(e) => assert_eq!(e.message(), "Expected either a trait object or a group of trait objects."),
        _ => panic!("expected an error"),
    }
    match plan_param(ParamType::ImplTrait(strings(&["TopicReader<'a,E>", "Send"]))) {
        Err(ParamError::Bounds(BoundsError::Unexpected(left))) => assert_eq!(left, strings(&["Send"])),
        _ => panic!("expected an error about the bounds"),
    }
}

#[test]
fn every_combination_gets_its_type() {
    let t = match injected_topic(&strings(&["TopicReader<'a,Ev>", "Bevy", "Group"])) {
        Ok(t) => t,
        Err(e) => panic!("{}", e.message()),
    };
    let types = combination_types(&t);
    assert_eq!(types.len(), t.combinations.len());
    assert!(types.contains(&"BevyGroupReader<'w, 's, Ev>".to_string()));
    for (ty, c) in types.iter().zip(t.combinations.iter()) {
        assert_eq!(ty, &combination_type(t.kind, c, &t.event));
    }
}
