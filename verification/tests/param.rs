use bevy_ecs::entity::Entity;
use zmaxion::param::{build_param, combine_flows, topic_param, ControlFlow, ParamBuilder, PipeParamError, TopicParam, TopicParamKind};

#[test]
fn topic_is_handed_to_a_parameter_of_its_kind() {
    let reader = Entity::from_raw(3);
    let b: ParamBuilder<()> = ParamBuilder::new(Entity::from_raw(1), 2, Some(TopicParam::Reader(reader)), Ok(()), TopicParamKind::Reader);
    assert_eq!(b.get_topic_id("r").ok(), Some(reader));
    assert_eq!(b.entity(), Entity::from_raw(1));
}

#[test]
fn topic_of_the_wrong_kind_is_refused() {
    let b: ParamBuilder<()> = ParamBuilder::new(Entity::from_raw(1), 2, Some(TopicParam::Reader(Entity::from_raw(3))), Ok(()), TopicParamKind::Writer);
    match b.get_topic_id("w") {
        Err(PipeParamError::InvalidPipeParam(i, name)) => {
            assert_eq!(i, 2);
            assert_eq!(name, "w");
        },
        _ => panic!("expected InvalidPipeParam"),
    }
    let b: ParamBuilder<()> = ParamBuilder::new(Entity::from_raw(1), 0, None, Ok(()), TopicParamKind::NoTopic);
    assert!(matches!(b.get_topic_id("x"), Err(PipeParamError::InvalidPipeParam(0, _))));
}

#[test]
fn args_are_taken_once() {
    let mut b: ParamBuilder<u8> = ParamBuilder::new(Entity::from_raw(1), 0, None, Ok(5), TopicParamKind::NoTopic);
    assert_eq!(b.args().ok(), Some(5));
    assert!(b.args.is_none());
}

#[test]
fn parameters_take_topics_in_order() {
    let readers = vec![Entity::from_raw(10), Entity::from_raw(11)];
    let writers = vec![Entity::from_raw(20)];
    let (mut arg_i, mut writer_i, mut reader_i) = (0usize, 0usize, 0usize);
    let r = build_param(TopicParamKind::Reader, &readers, &writers, &mut arg_i, &mut writer_i, &mut reader_i, "R");
    assert!(matches!(r, Ok(Some(TopicParam::Reader(e))) if e == readers[0]));
    let r = build_param(TopicParamKind::NoTopic, &readers, &writers, &mut arg_i, &mut writer_i, &mut reader_i, "N");
    assert!(matches!(r, Ok(None)));
    let r = build_param(TopicParamKind::Writer, &readers, &writers, &mut arg_i, &mut writer_i, &mut reader_i, "W");
    assert!(matches!(r, Ok(Some(TopicParam::Writer(e))) if e == writers[0]));
    assert_eq!((arg_i, writer_i, reader_i), (3, 1, 1));
    let r = build_param(TopicParamKind::Writer, &readers, &writers, &mut arg_i, &mut writer_i, &mut reader_i, "W2");
    match r {
        Err(PipeParamError::InvalidPipeParam(i, name)) => {
            assert_eq!(i, 3);
            assert_eq!(name, "W2");
        },
        _ => panic!("expected InvalidPipeParam"),
    }
    assert_eq!((arg_i, writer_i, reader_i), (3, 1, 1));
}

#[test]
fn placeholder_topics_follow_the_kind() {
    assert!(topic_param(TopicParamKind::NoTopic).is_none());
    assert!(matches!(topic_param(TopicParamKind::Reader), Some(TopicParam::Reader(e)) if e == Entity::from_raw(u32::MAX)));
    assert!(matches!(topic_param(TopicParamKind::Writer), Some(TopicParam::Writer(_))));
}

#[test]
fn control_flows_combine() {
    let f = ControlFlow::despawn().union(ControlFlow::skip());
    assert_eq!(f.bits, 3);
    assert!(f.contains(ControlFlow::skip()));
    assert!(!ControlFlow::empty().contains(ControlFlow::despawn()));
    assert_eq!(combine_flows(&vec![ControlFlow::empty(), ControlFlow::skip(), ControlFlow::skip()]).bits, 2);
    assert_eq!(combine_flows(&vec![]).bits, 0);
}

#[test]
fn other_errors_carry_their_cause() {
    let e = PipeParamError::Other(anyhow::Error::msg("boom"));
    match e {
        PipeParamError::Other(err) => assert_eq!(err.to_string(), "boom"),
        _ => panic!("expected Other"),
    }
    assert!(matches!(PipeParamError::Despawn, PipeParamError::Despawn));
}
