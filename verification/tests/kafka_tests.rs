use playground::kafka::{
    bench_key_string, bench_producer_config, bench_record, committing_consumer_config, connect_config,
    consumer_config, metadata_message, payload_text, produce_record, producer_config,
    subscription, ConsumerMode, PartitionMetadata, PayloadView, SaslLogin, Subscription,
    TopicMetadata,
};

fn pairs(v: &[(String, String)]) -> Vec<(&str, &str)> {
    v.iter().map(|(k, v)| (k.as_str(), v.as_str())).collect()
}

fn login() -> SaslLogin {
    SaslLogin { username: "user".to_string(), password: "pw".to_string() }
}

#[test]
fn consumer_config_without_sasl() {
    let c = consumer_config("broker:9092", None);
    assert_eq!(
        pairs(&c),
        vec![
            ("group.id", "not-exists"),
            ("bootstrap.servers", "broker:9092"),
            ("enable.partition.eof", "false"),
            ("session.timeout.ms", "6000"),
            ("enable.auto.commit", "false"),
            ("auto.offset.reset", "earliest"),
        ]
    );
}

#[test]
fn consumer_config_with_sasl() {
    let l = login();
    let c = consumer_config("b", Some(&l));
    assert_eq!(c.len(), 10);
    assert_eq!(
        pairs(&c[6..]),
        vec![
            ("security.protocol", "SASL_SSL"),
            ("sasl.mechanisms", "PLAIN"),
            ("sasl.username", "user"),
            ("sasl.password", "pw"),
        ]
    );
}

#[test]
fn connect_config_mechanism_defaults_to_plain() {
    let l = login();
    let c = connect_config("b", Some(&l), None);
    assert_eq!(c.len(), 11);
    assert_eq!(pairs(&c)[5], ("auto.offset.reset", "smallest"));
    assert_eq!(pairs(&c)[6], ("isolation.level", "read_committed"));
    assert_eq!(pairs(&c)[8], ("sasl.mechanisms", "PLAIN"));
    let d = connect_config("b", Some(&l), Some("SCRAM-SHA-256"));
    assert_eq!(pairs(&d)[8], ("sasl.mechanisms", "SCRAM-SHA-256"));
    assert_eq!(connect_config("b", None, Some("X")).len(), 7);
}

#[test]
fn committing_and_producer_configs_always_use_sasl() {
    let l = login();
    let c = committing_consumer_config("b", &l);
    assert_eq!(pairs(&c)[0], ("group.id", "GROUP"));
    assert_eq!(pairs(&c)[4], ("enable.auto.commit", "true"));
    assert_eq!(c.len(), 9);
    let p = producer_config("b", &l);
    assert_eq!(
        pairs(&p)[..2].to_vec(),
        vec![("bootstrap.servers", "b"), ("message.timeout.ms", "5000")]
    );
    assert_eq!(p.len(), 6);
}

#[test]
fn bench_producer_config_targets_local_broker() {
    let c = bench_producer_config();
    assert_eq!(pairs(&c)[0], ("bootstrap.servers", "localhost:9092"));
    assert_eq!(pairs(&c)[4], ("linger.ms", "5"));
}

#[test]
fn subscription_follows_mode() {
    match subscription(ConsumerMode::Subscribe, "x") {
        Subscription::Topics(t) => assert_eq!(t, vec!["x".to_string()]),
        other => panic!("unexpected {other:?}"),
    }
    match subscription(ConsumerMode::Assign, "x") {
        Subscription::PartitionsFromEnd(p) => assert_eq!(p, vec![("x".to_string(), 0)]),
        other => panic!("unexpected {other:?}"),
    }
}

#[test]
fn payload_text_is_empty_unless_text() {
    assert_eq!(payload_text(PayloadView::Text("hi")), "hi");
    assert_eq!(payload_text(PayloadView::Absent), "");
    assert_eq!(payload_text(PayloadView::NotText), "");
}

#[test]
fn metadata_message_lists_topics_and_partitions() {
    let topics = vec![
        TopicMetadata {
            name: "x".to_string(),
            partitions: vec![
                PartitionMetadata { id: 0, leader: 1, replicas: vec![1, 2, 3] },
                PartitionMetadata { id: 1, leader: -1, replicas: vec![] },
            ],
        },
        TopicMetadata { name: "y".to_string(), partitions: vec![] },
    ];
    assert_eq!(
        metadata_message(&topics),
        "metadata x: (partition: 0, leader: 1, replicas: [1, 2, 3]),\
         (partition: 1, leader: -1, replicas: []),y: "
    );
    assert_eq!(metadata_message(&Vec::new()), "metadata ");
}

#[test]
fn produced_records_are_numbered() {
    let r = produce_record(42);
    assert_eq!(r.payload, "Message 42");
    assert_eq!(r.key, "Key 42");
    assert_eq!(r.header_key, "header_key");
    assert_eq!(r.header_value, "header_value");
}

#[test]
fn bench_record_layout() {
    let r = bench_record(7);
    assert_eq!(r.partition, 1);
    assert_eq!(r.key, "s7".repeat(10));
    assert_eq!(r.payload, format!("{{\"s\":\"{}\",\"x\":7}}", "s7".repeat(10)));
    assert_eq!(bench_record(12).partition, 0);
}

#[test]
fn bench_key_repeats_ten_times() {
    assert_eq!(bench_key_string(0), "s0".repeat(10));
    assert_eq!(bench_key_string(123), "s123".repeat(10));
}
