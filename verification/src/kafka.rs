//! The decisions of a Kafka consumer and of two Kafka producers: the client
//! settings, where a consumer starts reading, how a message payload is shown,
//! how topic metadata is described, and what each produced record holds.

use itertools::Itertools;
use vstd::prelude::*;
use vstd::string::*;

use crate::text::{
    decimal, is_signed_numeral, lemma_signed_decimal_numeral, push_decimal, push_signed_decimal,
    signed_decimal, signed_value,
};

verus! {

/// A setting of a Kafka client: its name and its value.
pub type Setting = (Seq<char>, Seq<char>);

/// The model of client settings.
pub open spec fn settings_view(v: Seq<(String, String)>) -> Seq<Setting> {
    v.map_values(|e: (String, String)| (e.0@, e.1@))
}

/// The credentials of a SASL login.
pub struct SaslLogin {
    pub username: String,
    pub password: String,
}

/// The model of an optional login.
pub open spec fn login_view(l: Option<&SaslLogin>) -> Option<(Seq<char>, Seq<char>)> {
    match l {
        Some(l) => Some((l.username@, l.password@)),
        None => None,
    }
}

/// The settings that turn on SASL over SSL with the given mechanism.
pub open spec fn sasl_settings(mechanism: Seq<char>, username: Seq<char>, password: Seq<char>) -> Seq<
    Setting,
> {
    seq![
        ("security.protocol"@, "SASL_SSL"@),
        ("sasl.mechanisms"@, mechanism),
        ("sasl.username"@, username),
        ("sasl.password"@, password),
    ]
}

/// The settings of the consumer that inspects a topic from its earliest
/// message, committing nothing; with a login, SASL (`PLAIN`) is turned on.
pub open spec fn consumer_settings(bootstrap: Seq<char>, login: Option<(Seq<char>, Seq<char>)>) -> Seq<
    Setting,
> {
    seq![
        ("group.id"@, "not-exists"@),
        ("bootstrap.servers"@, bootstrap),
        ("enable.partition.eof"@, "false"@),
        ("session.timeout.ms"@, "6000"@),
        ("enable.auto.commit"@, "false"@),
        ("auto.offset.reset"@, "earliest"@),
    ] + match login {
        Some((u, p)) => sasl_settings("PLAIN"@, u, p),
        None => Seq::empty(),
    }
}

/// The settings of the client that connects, creates a topic and reads
/// committed messages; with a login, SASL is turned on with the given
/// mechanism, `PLAIN` when none is given.
pub open spec fn connect_settings(
    bootstrap: Seq<char>,
    login: Option<(Seq<char>, Seq<char>)>,
    mechanism: Option<Seq<char>>,
) -> Seq<Setting> {
    seq![
        ("group.id"@, "not-exists"@),
        ("bootstrap.servers"@, bootstrap),
        ("enable.partition.eof"@, "false"@),
        ("session.timeout.ms"@, "6000"@),
        ("enable.auto.commit"@, "true"@),
        ("auto.offset.reset"@, "smallest"@),
        ("isolation.level"@, "read_committed"@),
    ] + match login {
        Some((u, p)) => sasl_settings(
            match mechanism {
                Some(m) => m,
                None => "PLAIN"@,
            },
            u,
            p,
        ),
        None => Seq::empty(),
    }
}

/// The settings of the consumer that reads a topic in a group and commits
/// what it has read, always over SASL (`PLAIN`).
pub open spec fn committing_settings(bootstrap: Seq<char>, username: Seq<char>, password: Seq<char>) -> Seq<
    Setting,
> {
    seq![
        ("group.id"@, "GROUP"@),
        ("bootstrap.servers"@, bootstrap),
        ("enable.partition.eof"@, "false"@),
        ("session.timeout.ms"@, "6000"@),
        ("enable.auto.commit"@, "true"@),
    ] + sasl_settings("PLAIN"@, username, password)
}

/// The settings of the producer that sends numbered messages, always over
/// SASL (`PLAIN`).
pub open spec fn producer_settings(bootstrap: Seq<char>, username: Seq<char>, password: Seq<char>) -> Seq<
    Setting,
> {
    seq![("bootstrap.servers"@, bootstrap), ("message.timeout.ms"@, "5000"@)] + sasl_settings(
        "PLAIN"@,
        username,
        password,
    )
}

/// The settings of the producer that measures throughput on a local broker.
pub open spec fn bench_producer_settings() -> Seq<Setting> {
    seq![
        ("bootstrap.servers"@, "localhost:9092"@),
        ("queue.buffering.max.messages"@, "1000000"@),
        ("queue.buffering.max.ms"@, "1000"@),
        ("batch.num.messages"@, "100000"@),
        ("linger.ms"@, "5"@),
    ]
}

/// The settings hold the setting named `key` with value `value`.
pub open spec fn holds(settings: Seq<Setting>, key: Seq<char>, value: Seq<char>) -> bool {
    settings.contains((key, value))
}

/// What a login turns on: SASL over SSL with the mechanism, and the login's
/// user name and password under their own names.
pub open spec fn holds_login(
    settings: Seq<Setting>,
    mechanism: Seq<char>,
    username: Seq<char>,
    password: Seq<char>,
) -> bool {
    &&& holds(settings, "security.protocol"@, "SASL_SSL"@)
    &&& holds(settings, "sasl.mechanisms"@, mechanism)
    &&& holds(settings, "sasl.username"@, username)
    &&& holds(settings, "sasl.password"@, password)
}

/// The producer of numbered messages talks to the given brokers, gives up on
/// a message after five seconds, and logs in over SASL (`PLAIN`) as the
/// login's user with the login's password; it sets nothing else.
pub proof fn lemma_producer_settings(bootstrap: Seq<char>, username: Seq<char>, password: Seq<char>)
    ensures
        ({
            let s = producer_settings(bootstrap, username, password);
            &&& s.len() == 6
            &&& holds(s, "bootstrap.servers"@, bootstrap)
            &&& holds(s, "message.timeout.ms"@, "5000"@)
            &&& holds_login(s, "PLAIN"@, username, password)
        }),
{
    let s = producer_settings(bootstrap, username, password);
    assert(s[0] == ("bootstrap.servers"@, bootstrap));
    assert(s[1] == ("message.timeout.ms"@, "5000"@));
    assert(s[2] == ("security.protocol"@, "SASL_SSL"@));
    assert(s[3] == ("sasl.mechanisms"@, "PLAIN"@));
    assert(s[4] == ("sasl.username"@, username));
    assert(s[5] == ("sasl.password"@, password));
}

/// The consumer that inspects a topic belongs to the group `not-exists`,
/// talks to the given brokers, reports no end of partition, times a session
/// out after six seconds, commits nothing and starts from the earliest
/// message; with a login it logs in over SASL (`PLAIN`) as the login's user
/// with the login's password. It sets nothing else.
pub proof fn lemma_consumer_settings(bootstrap: Seq<char>, login: Option<(Seq<char>, Seq<char>)>)
    ensures
        ({
            let s = consumer_settings(bootstrap, login);
            &&& s.len() == if login is Some {
                10nat
            } else {
                6nat
            }
            &&& holds(s, "group.id"@, "not-exists"@)
            &&& holds(s, "bootstrap.servers"@, bootstrap)
            &&& holds(s, "enable.partition.eof"@, "false"@)
            &&& holds(s, "session.timeout.ms"@, "6000"@)
            &&& holds(s, "enable.auto.commit"@, "false"@)
            &&& holds(s, "auto.offset.reset"@, "earliest"@)
            &&& login matches Some((u, p)) ==> holds_login(s, "PLAIN"@, u, p)
        }),
{
    let s = consumer_settings(bootstrap, login);
    assert(s[0] == ("group.id"@, "not-exists"@));
    assert(s[1] == ("bootstrap.servers"@, bootstrap));
    assert(s[2] == ("enable.partition.eof"@, "false"@));
    assert(s[3] == ("session.timeout.ms"@, "6000"@));
    assert(s[4] == ("enable.auto.commit"@, "false"@));
    assert(s[5] == ("auto.offset.reset"@, "earliest"@));
    if let Some((u, p)) = login {
        assert(s[6] == ("security.protocol"@, "SASL_SSL"@));
        assert(s[7] == ("sasl.mechanisms"@, "PLAIN"@));
        assert(s[8] == ("sasl.username"@, u));
        assert(s[9] == ("sasl.password"@, p));
    }
}

/// The client that connects and reads committed messages belongs to the
/// group `not-exists`, talks to the given brokers, reports no end of
/// partition, times a session out after six seconds, commits what it reads,
/// starts from the smallest offset and reads only committed messages; with a
/// login it logs in over SASL, with the given mechanism or `PLAIN`, as the
/// login's user with the login's password. It sets nothing else.
pub proof fn lemma_connect_settings(
    bootstrap: Seq<char>,
    login: Option<(Seq<char>, Seq<char>)>,
    mechanism: Option<Seq<char>>,
)
    ensures
        ({
            let s = connect_settings(bootstrap, login, mechanism);
            &&& s.len() == if login is Some {
                11nat
            } else {
                7nat
            }
            &&& holds(s, "group.id"@, "not-exists"@)
            &&& holds(s, "bootstrap.servers"@, bootstrap)
            &&& holds(s, "enable.partition.eof"@, "false"@)
            &&& holds(s, "session.timeout.ms"@, "6000"@)
            &&& holds(s, "enable.auto.commit"@, "true"@)
            &&& holds(s, "auto.offset.reset"@, "smallest"@)
            &&& holds(s, "isolation.level"@, "read_committed"@)
            &&& login matches Some((u, p)) ==> holds_login(
                s,
                if mechanism is Some {
                    mechanism->Some_0
                } else {
                    "PLAIN"@
                },
                u,
                p,
            )
        }),
{
    let s = connect_settings(bootstrap, login, mechanism);
    assert(s[0] == ("group.id"@, "not-exists"@));
    assert(s[1] == ("bootstrap.servers"@, bootstrap));
    assert(s[2] == ("enable.partition.eof"@, "false"@));
    assert(s[3] == ("session.timeout.ms"@, "6000"@));
    assert(s[4] == ("enable.auto.commit"@, "true"@));
    assert(s[5] == ("auto.offset.reset"@, "smallest"@));
    assert(s[6] == ("isolation.level"@, "read_committed"@));
    if let Some((u, p)) = login {
        let m = if mechanism is Some {
            mechanism->Some_0
        } else {
            "PLAIN"@
        };
        assert(s[7] == ("security.protocol"@, "SASL_SSL"@));
        assert(s[8] == ("sasl.mechanisms"@, m));
        assert(s[9] == ("sasl.username"@, u));
        assert(s[10] == ("sasl.password"@, p));
    }
}

/// The consumer that commits what it reads belongs to the group `GROUP`,
/// talks to the given brokers, reports no end of partition, times a session
/// out after six seconds, commits what it reads, and logs in over SASL
/// (`PLAIN`) as the login's user with the login's password. It sets nothing
/// else.
pub proof fn lemma_committing_settings(bootstrap: Seq<char>, username: Seq<char>, password: Seq<char>)
    ensures
        ({
            let s = committing_settings(bootstrap, username, password);
            &&& s.len() == 9
            &&& holds(s, "group.id"@, "GROUP"@)
            &&& holds(s, "bootstrap.servers"@, bootstrap)
            &&& holds(s, "enable.partition.eof"@, "false"@)
            &&& holds(s, "session.timeout.ms"@, "6000"@)
            &&& holds(s, "enable.auto.commit"@, "true"@)
            &&& holds_login(s, "PLAIN"@, username, password)
        }),
{
    let s = committing_settings(bootstrap, username, password);
    assert(s[0] == ("group.id"@, "GROUP"@));
    assert(s[1] == ("bootstrap.servers"@, bootstrap));
    assert(s[2] == ("enable.partition.eof"@, "false"@));
    assert(s[3] == ("session.timeout.ms"@, "6000"@));
    assert(s[4] == ("enable.auto.commit"@, "true"@));
    assert(s[5] == ("security.protocol"@, "SASL_SSL"@));
    assert(s[6] == ("sasl.mechanisms"@, "PLAIN"@));
    assert(s[7] == ("sasl.username"@, username));
    assert(s[8] == ("sasl.password"@, password));
}

/// The throughput producer talks to the local broker, buffers up to a
/// million messages for up to a second, sends them in batches of up to a
/// hundred thousand, and lingers five milliseconds. It sets nothing else.
pub proof fn lemma_bench_producer_settings()
    ensures
        ({
            let s = bench_producer_settings();
            &&& s.len() == 5
            &&& holds(s, "bootstrap.servers"@, "localhost:9092"@)
            &&& holds(s, "queue.buffering.max.messages"@, "1000000"@)
            &&& holds(s, "queue.buffering.max.ms"@, "1000"@)
            &&& holds(s, "batch.num.messages"@, "100000"@)
            &&& holds(s, "linger.ms"@, "5"@)
        }),
{
    let s = bench_producer_settings();
    assert(s[0] == ("bootstrap.servers"@, "localhost:9092"@));
    assert(s[1] == ("queue.buffering.max.messages"@, "1000000"@));
    assert(s[2] == ("queue.buffering.max.ms"@, "1000"@));
    assert(s[3] == ("batch.num.messages"@, "100000"@));
    assert(s[4] == ("linger.ms"@, "5"@));
}

fn setting(key: &str, value: &str) -> (r: (String, String))
    ensures
        r.0@ == key@,
        r.1@ == value@,
{
    (String::from_str(key), String::from_str(value))
}

fn push_setting(v: &mut Vec<(String, String)>, key: &str, value: &str)
    ensures
        settings_view(final(v)@) == settings_view(old(v)@).push((key@, value@)),
{
    let ghost before = v@;
    v.push(setting(key, value));
    assert(settings_view(v@) == settings_view(before).push((key@, value@)));
}

fn push_sasl(v: &mut Vec<(String, String)>, mechanism: &str, username: &str, password: &str)
    ensures
        settings_view(final(v)@) == settings_view(old(v)@) + sasl_settings(
            mechanism@,
            username@,
            password@,
        ),
{
    push_setting(v, "security.protocol", "SASL_SSL");
    push_setting(v, "sasl.mechanisms", mechanism);
    push_setting(v, "sasl.username", username);
    push_setting(v, "sasl.password", password);
}

/// The settings of the consumer that inspects a topic (see
/// `consumer_settings`).
pub fn consumer_config(bootstrap_servers: &str, login: Option<&SaslLogin>) -> (r: Vec<(String, String)>)
    ensures
        settings_view(r@) == consumer_settings(bootstrap_servers@, login_view(login)),
{
    let mut v: Vec<(String, String)> = Vec::new();
    push_setting(&mut v, "group.id", "not-exists");
    push_setting(&mut v, "bootstrap.servers", bootstrap_servers);
    push_setting(&mut v, "enable.partition.eof", "false");
    push_setting(&mut v, "session.timeout.ms", "6000");
    push_setting(&mut v, "enable.auto.commit", "false");
    push_setting(&mut v, "auto.offset.reset", "earliest");
    if let Some(l) = login {
        push_sasl(&mut v, "PLAIN", l.username.as_str(), l.password.as_str());
    }
    v
}

/// The settings of the client that connects and creates a topic (see
/// `connect_settings`).
pub fn connect_config(
    bootstrap_servers: &str,
    login: Option<&SaslLogin>,
    mechanism: Option<&str>,
) -> (r: Vec<(String, String)>)
    ensures
        settings_view(r@) == connect_settings(
            bootstrap_servers@,
            login_view(login),
            match mechanism {
                Some(m) => Some(m@),
                None => None,
            },
        ),
{
    let mut v: Vec<(String, String)> = Vec::new();
    push_setting(&mut v, "group.id", "not-exists");
    push_setting(&mut v, "bootstrap.servers", bootstrap_servers);
    push_setting(&mut v, "enable.partition.eof", "false");
    push_setting(&mut v, "session.timeout.ms", "6000");
    push_setting(&mut v, "enable.auto.commit", "true");
    push_setting(&mut v, "auto.offset.reset", "smallest");
    push_setting(&mut v, "isolation.level", "read_committed");
    if let Some(l) = login {
        let m = match mechanism {
            Some(m) => m,
            None => "PLAIN",
        };
        push_sasl(&mut v, m, l.username.as_str(), l.password.as_str());
    }
    v
}

/// The settings of the consumer that commits what it reads (see
/// `committing_settings`).
pub fn committing_consumer_config(bootstrap_servers: &str, login: &SaslLogin) -> (r: Vec<(String, String)>)
    ensures
        settings_view(r@) == committing_settings(bootstrap_servers@, login.username@, login.password@),
{
    let mut v: Vec<(String, String)> = Vec::new();
    push_setting(&mut v, "group.id", "GROUP");
    push_setting(&mut v, "bootstrap.servers", bootstrap_servers);
    push_setting(&mut v, "enable.partition.eof", "false");
    push_setting(&mut v, "session.timeout.ms", "6000");
    push_setting(&mut v, "enable.auto.commit", "true");
    push_sasl(&mut v, "PLAIN", login.username.as_str(), login.password.as_str());
    v
}

/// The settings of the producer of numbered messages (see
/// `producer_settings`).
pub fn producer_config(bootstrap_servers: &str, login: &SaslLogin) -> (r: Vec<(String, String)>)
    ensures
        settings_view(r@) == producer_settings(bootstrap_servers@, login.username@, login.password@),
{
    let mut v: Vec<(String, String)> = Vec::new();
    push_setting(&mut v, "bootstrap.servers", bootstrap_servers);
    push_setting(&mut v, "message.timeout.ms", "5000");
    push_sasl(&mut v, "PLAIN", login.username.as_str(), login.password.as_str());
    v
}

/// The settings of the throughput producer (see `bench_producer_settings`).
pub fn bench_producer_config() -> (r: Vec<(String, String)>)
    ensures
        settings_view(r@) == bench_producer_settings(),
{
    let mut v: Vec<(String, String)> = Vec::new();
    push_setting(&mut v, "bootstrap.servers", "localhost:9092");
    push_setting(&mut v, "queue.buffering.max.messages", "1000000");
    push_setting(&mut v, "queue.buffering.max.ms", "1000");
    push_setting(&mut v, "batch.num.messages", "100000");
    push_setting(&mut v, "linger.ms", "5");
    v
}

/// How the consumer attaches to its topic.
#[derive(PartialEq, Eq, Structural, Clone, Copy, Debug)]
pub enum ConsumerMode {
    /// Join a consumer group and let the broker assign partitions.
    Subscribe,
    /// Take partitions by hand.
    Assign,
}

/// Where the consumer reads from.
#[derive(Debug)]
pub enum Subscription {
    /// Subscribe to these topics in a consumer group.
    Topics(Vec<String>),
    /// Read these partitions (topic, partition), each from its end.
    PartitionsFromEnd(Vec<(String, i32)>),
}

/// Where the consumer reads from: in `Subscribe` mode, the topic in a
/// consumer group; in `Assign` mode, partition 0 of the topic from its end.
pub fn subscription(mode: ConsumerMode, topic: &str) -> (r: Subscription)
    ensures
        mode == ConsumerMode::Subscribe ==> (r matches Subscription::Topics(ts) && ts@.len() == 1
            && ts@[0]@ == topic@),
        mode == ConsumerMode::Assign ==> (r matches Subscription::PartitionsFromEnd(ps) && ps@.len()
            == 1 && ps@[0].0@ == topic@ && ps@[0].1 == 0),
{
    match mode {
        ConsumerMode::Subscribe => {
            let mut ts: Vec<String> = Vec::new();
            ts.push(String::from_str(topic));
            Subscription::Topics(ts)
        },
        ConsumerMode::Assign => {
            let mut ps: Vec<(String, i32)> = Vec::new();
            ps.push((String::from_str(topic), 0));
            Subscription::PartitionsFromEnd(ps)
        },
    }
}

/// A message payload as the consumer sees it.
pub enum PayloadView<'a> {
    /// The message has no payload.
    Absent,
    /// The payload is this text.
    Text(&'a str),
    /// The payload is not valid UTF-8.
    NotText,
}

/// The payload as text: itself when it is text, empty otherwise.
pub fn payload_text<'a>(view: PayloadView<'a>) -> (r: &'a str)
    ensures
        r@ == match view {
            PayloadView::Text(s) => s@,
            _ => ""@,
        },
{
    match view {
        PayloadView::Text(s) => s,
        _ => "",
    }
}

/// `parts` joined with `sep` between each two of them.
pub open spec fn join_model(parts: Seq<Seq<char>>, sep: Seq<char>) -> Seq<char>
    decreases parts.len(),
{
    if parts.len() == 0 {
        Seq::empty()
    } else if parts.len() == 1 {
        parts[0]
    } else {
        join_model(parts.drop_last(), sep) + sep + parts.last()
    }
}

/// Joins texts with a separator (`itertools::Itertools::join`).
/// Claimed: the result is the texts in order with `sep` between each two of
/// them, empty when there are none.
#[verifier::external_body]
fn join_texts(parts: &Vec<String>, sep: &str) -> (r: String)
    ensures
        r@ == join_model(parts@.map_values(|p: String| p@), sep@),
{
    parts.iter().join(sep)
}

/// What the broker reports of a partition.
pub struct PartitionMetadata {
    pub id: i32,
    pub leader: i32,
    pub replicas: Vec<i32>,
}

/// What the broker reports of a topic.
pub struct TopicMetadata {
    pub name: String,
    pub partitions: Vec<PartitionMetadata>,
}

/// A list of numbers as `Debug` shows it: `[1, 2, 3]`.
pub open spec fn number_list_text(ns: Seq<i32>) -> Seq<char> {
    "["@ + join_model(ns.map_values(|n: i32| signed_decimal(n as int)), ", "@) + "]"@
}

/// `(partition: <id>, leader: <leader>, replicas: [<replicas>])`.
pub open spec fn partition_text(p: PartitionMetadata) -> Seq<char> {
    "(partition: "@ + signed_decimal(p.id as int) + ", leader: "@ + signed_decimal(p.leader as int)
        + ", replicas: "@ + number_list_text(p.replicas@) + ")"@
}

/// The text of a partition laid out around its parts.
pub open spec fn partition_layout(id: Seq<char>, leader: Seq<char>, replicas: Seq<char>) -> Seq<char> {
    "(partition: "@ + id + ", leader: "@ + leader + ", replicas: "@ + replicas + ")"@
}

/// The text of a list of numbers shows each of them, in order: it is a
/// bracketed list of signed numerals, joined by `, `, that read back to the
/// numbers.
pub proof fn lemma_number_list_shows_numbers(ns: Seq<i32>)
    ensures
        exists|parts: Seq<Seq<char>>|
            number_list_text(ns) == "["@ + #[trigger] join_model(parts, ", "@) + "]"@ && parts.len()
                == ns.len() && forall|i: int|
                0 <= i < ns.len() ==> is_signed_numeral(#[trigger] parts[i]) && signed_value(parts[i])
                    == ns[i] as int,
{
    let parts = ns.map_values(|n: i32| signed_decimal(n as int));
    assert forall|i: int| 0 <= i < ns.len() implies is_signed_numeral(#[trigger] parts[i])
        && signed_value(parts[i]) == ns[i] as int by {
        lemma_signed_decimal_numeral(ns[i] as int);
    }
    assert(number_list_text(ns) == "["@ + join_model(parts, ", "@) + "]"@);
}

/// The text of a partition shows its id and its leader in full: laid out as
/// `(partition: <id>, leader: <leader>, replicas: <replicas>)`, where the id
/// and the leader are signed numerals that read back to the partition's id
/// and leader, and the replicas are the text of its list of replicas.
pub proof fn lemma_partition_text_shows_numbers(p: PartitionMetadata)
    ensures
        exists|id: Seq<char>, leader: Seq<char>|
            #[trigger] partition_layout(id, leader, number_list_text(p.replicas@))
                == partition_text(p) && is_signed_numeral(id) && signed_value(id) == p.id as int
                && is_signed_numeral(leader) && signed_value(leader) == p.leader as int,
{
    let id = signed_decimal(p.id as int);
    let leader = signed_decimal(p.leader as int);
    lemma_signed_decimal_numeral(p.id as int);
    lemma_signed_decimal_numeral(p.leader as int);
    assert(partition_layout(id, leader, number_list_text(p.replicas@)) == partition_text(p));
}

/// `<name>: <partitions joined by ",">`.
pub open spec fn topic_text(t: TopicMetadata) -> Seq<char> {
    t.name@ + ": "@ + join_model(t.partitions@.map_values(|p: PartitionMetadata| partition_text(p)), ","@)
}

/// `metadata <topics joined by ",">`.
pub open spec fn metadata_text(ts: Seq<TopicMetadata>) -> Seq<char> {
    "metadata "@ + join_model(ts.map_values(|t: TopicMetadata| topic_text(t)), ","@)
}

fn number_list_string(ns: &Vec<i32>) -> (r: String)
    ensures
        r@ == number_list_text(ns@),
{
    let ghost parts = ns@.map_values(|n: i32| signed_decimal(n as int));
    let mut body = String::new();
    let mut i: usize = 0;
    assert(parts.take(0) == Seq::<Seq<char>>::empty());
    while i < ns.len()
        invariant
            i <= ns@.len(),
            parts == ns@.map_values(|n: i32| signed_decimal(n as int)),
            body@ == join_model(parts.take(i as int), ", "@),
        decreases ns@.len() - i,
    {
        assert(parts.take(i + 1).drop_last() == parts.take(i as int));
        assert(parts.take(i + 1).last() == signed_decimal(ns@[i as int] as int));
        if i > 0 {
            body.append(", ");
        } else {
            assert(body@ == Seq::<char>::empty());
        }
        push_signed_decimal(&mut body, ns[i] as i64);
        proof {
            if i == 0 {
                assert(parts.take(1).len() == 1);
            }
        }
        i = i + 1;
    }
    assert(parts.take(i as int) == parts);
    let mut r = String::from_str("[");
    r.append(body.as_str());
    r.append("]");
    r
}

fn partition_string(p: &PartitionMetadata) -> (r: String)
    ensures
        r@ == partition_text(*p),
{
    let mut r = String::from_str("(partition: ");
    push_signed_decimal(&mut r, p.id as i64);
    r.append(", leader: ");
    push_signed_decimal(&mut r, p.leader as i64);
    r.append(", replicas: ");
    let l = number_list_string(&p.replicas);
    r.append(l.as_str());
    r.append(")");
    r
}

fn topic_string(t: &TopicMetadata) -> (r: String)
    ensures
        r@ == topic_text(*t),
{
    let mut parts: Vec<String> = Vec::new();
    let mut i: usize = 0;
    while i < t.partitions.len()
        invariant
            i <= t.partitions@.len(),
            parts@.len() == i,
            forall|k: int| 0 <= k < i ==> #[trigger] parts@[k]@ == partition_text(t.partitions@[k]),
        decreases t.partitions@.len() - i,
    {
        parts.push(partition_string(&t.partitions[i]));
        i = i + 1;
    }
    assert(parts@.map_values(|p: String| p@) == t.partitions@.map_values(
        |p: PartitionMetadata| partition_text(p),
    ));
    let joined = join_texts(&parts, ",");
    let mut r = t.name.clone();
    r.append(": ");
    r.append(joined.as_str());
    r
}

/// The line that describes the topics a broker reports (see
/// `metadata_text`).
pub fn metadata_message(topics: &Vec<TopicMetadata>) -> (r: String)
    ensures
        r@ == metadata_text(topics@),
{
    let mut parts: Vec<String> = Vec::new();
    let mut i: usize = 0;
    while i < topics.len()
        invariant
            i <= topics@.len(),
            parts@.len() == i,
            forall|k: int| 0 <= k < i ==> #[trigger] parts@[k]@ == topic_text(topics@[k]),
        decreases topics@.len() - i,
    {
        parts.push(topic_string(&topics[i]));
        i = i + 1;
    }
    assert(parts@.map_values(|p: String| p@) == topics@.map_values(|t: TopicMetadata| topic_text(t)));
    let joined = join_texts(&parts, ",");
    let mut r = String::from_str("metadata ");
    r.append(joined.as_str());
    r
}

/// A record sent by the producer of numbered messages.
pub struct ProducedRecord {
    pub payload: String,
    pub key: String,
    pub header_key: String,
    pub header_value: String,
}

/// Record `i`: payload `Message <i>`, key `Key <i>`, and one header
/// `header_key` with value `header_value`.
pub fn produce_record(i: u64) -> (r: ProducedRecord)
    ensures
        r.payload@ == "Message "@ + decimal(i as nat),
        r.key@ == "Key "@ + decimal(i as nat),
        r.header_key@ == "header_key"@,
        r.header_value@ == "header_value"@,
{
    let mut payload = String::from_str("Message ");
    push_decimal(&mut payload, i);
    let mut key = String::from_str("Key ");
    push_decimal(&mut key, i);
    ProducedRecord {
        payload,
        key,
        header_key: String::from_str("header_key"),
        header_value: String::from_str("header_value"),
    }
}

/// `s` written `n` times one after the other.
pub open spec fn repeat_text(s: Seq<char>, n: nat) -> Seq<char>
    decreases n,
{
    if n == 0 {
        Seq::empty()
    } else {
        repeat_text(s, (n - 1) as nat) + s
    }
}

/// The text that `serde_json` writes for an object with a number field and
/// a text field.
pub uninterp spec fn json_pair_text(
    number_key: Seq<char>,
    number: i64,
    text_key: Seq<char>,
    text: Seq<char>,
) -> Seq<char>;

/// Serialises an object with a number field and a text field
/// (`serde_json::Value::to_string` on the object built from them).
/// Claimed: the text is a function of the four arguments alone.
#[verifier::external_body]
fn json_pair(number_key: &str, number: i64, text_key: &str, text: &str) -> (r: String)
    ensures
        r@ == json_pair_text(number_key@, number, text_key@, text@),
{
    let mut object = serde_json::Map::new();
    object.insert(number_key.to_string(), serde_json::Value::from(number));
    object.insert(text_key.to_string(), serde_json::Value::from(text));
    serde_json::Value::Object(object).to_string()
}

/// How many partitions the throughput producer spreads its records over.
pub const BENCH_PARTITIONS: u32 = 6;

/// A record sent by the throughput producer.
pub struct BenchRecord {
    pub partition: i32,
    pub key: String,
    pub payload: String,
}

/// The key of throughput record `i`: `s<i>` written ten times.
pub open spec fn bench_key(i: nat) -> Seq<char> {
    repeat_text(seq!['s'] + decimal(i), 10)
}

/// The key of throughput record `i` (see `bench_key`).
pub fn bench_key_string(i: u32) -> (r: String)
    ensures
        r@ == bench_key(i as nat),
{
    let mut unit = String::from_str("s");
    proof {
        reveal_strlit("s");
    }
    push_decimal(&mut unit, i as u64);
    let mut key = String::new();
    let mut k: u32 = 0;
    while k < 10
        invariant
            k <= 10,
            unit@ == seq!['s'] + decimal(i as nat),
            key@ == repeat_text(unit@, k as nat),
        decreases 10 - k,
    {
        key.append(unit.as_str());
        k = k + 1;
    }
    key
}

/// Throughput record `i`: partition `i % 6`, key `s<i>` written ten times,
/// and as payload the JSON object with `x` set to `i` and `s` set to the key.
pub fn bench_record(i: u32) -> (r: BenchRecord)
    ensures
        r.partition == i % BENCH_PARTITIONS,
        r.key@ == bench_key(i as nat),
        r.payload@ == json_pair_text("x"@, i as i64, "s"@, bench_key(i as nat)),
{
    let key = bench_key_string(i);
    let payload = json_pair("x", i as i64, "s", key.as_str());
    BenchRecord { partition: (i % BENCH_PARTITIONS) as i32, key, payload }
}

} // verus!
