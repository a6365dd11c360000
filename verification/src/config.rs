//! Client configurations: what each kind of client is told.

use rdkafka::config::ClientConfig;
use std::time::Duration;
use vstd::prelude::*;
use vstd::string::*;

use crate::error::OpError;
use crate::number::{decimal, to_decimal};
use crate::text::{concat2, law_split_first, lemma_first_index, split_first, split_once, texts};

verus! {

// ---- the client library's configuration ----

/// The configuration of a client of the `rdkafka` crate.
#[verifier::external_type_specification]
#[verifier::external_body]
pub struct ExClientConfig(ClientConfig);

/// The parameters that were set in a configuration, with their values.
pub uninterp spec fn config_entries(config: ClientConfig) -> Map<Seq<char>, Seq<char>>;

/// No parameter at all.
pub open spec fn no_entries() -> Map<Seq<char>, Seq<char>> {
    Map::empty()
}

/// `ClientConfig::new`: a configuration in which no parameter is set. Its log
/// level, which follows the global one, is left unsaid.
pub assume_specification[ ClientConfig::new ]() -> (r: ClientConfig)
    ensures
        config_entries(r) == no_entries(),
;

/// `ClientConfig::set`: sets one parameter, in place of the value that it had,
/// and no other.
#[verifier::external_body]
fn set_param(config: &mut ClientConfig, key: &str, value: &str)
    ensures
        config_entries(*final(config)) == config_entries(*old(config)).insert(key@, value@),
{
    config.set(key, value);
}

/// A configuration or a failure is the one that the model names.
pub open spec fn configures(
    r: Result<ClientConfig, OpError>,
    model: Result<Map<Seq<char>, Seq<char>>, Seq<char>>,
) -> bool {
    match (r, model) {
        (Ok(config), Ok(entries)) => config_entries(config) == entries,
        (Err(e), Err(message)) => e@ == message,
        _ => false,
    }
}

// ---- configurations from the brokers alone ----

/// A configuration that names the brokers.
pub open spec fn base_entries(brokers: Seq<char>) -> Map<Seq<char>, Seq<char>> {
    no_entries().insert("bootstrap.servers"@, brokers)
}

/// The configuration that every client starts from.
pub fn base_config(brokers: &str) -> (r: ClientConfig)
    ensures
        config_entries(r) == base_entries(brokers@),
{
    let mut config = ClientConfig::new();
    set_param(&mut config, "bootstrap.servers", brokers);
    config
}

/// A producer gives a message ten seconds.
pub open spec fn producer_entries(brokers: Seq<char>) -> Map<Seq<char>, Seq<char>> {
    base_entries(brokers).insert("message.timeout.ms"@, "10000"@)
}

/// The configuration of a producer.
pub fn producer_config(brokers: &str) -> (r: ClientConfig)
    ensures
        config_entries(r) == producer_entries(brokers@),
{
    let mut config = base_config(brokers);
    set_param(&mut config, "message.timeout.ms", "10000");
    config
}

/// A consumer commits only when told to, reads a group's topic from the start,
/// and without a group of its own joins the one for snapshots.
pub open spec fn consumer_entries(brokers: Seq<char>, group: Option<Seq<char>>) -> Map<
    Seq<char>,
    Seq<char>,
> {
    base_entries(brokers).insert("enable.auto.commit"@, "false"@).insert(
        "auto.offset.reset"@,
        "earliest"@,
    ).insert(
        "group.id"@,
        match group {
            Some(g) => g,
            None => "stryke-kafka-snapshot"@,
        },
    )
}

/// The configuration of a consumer.
pub fn consumer_config(brokers: &str, group: Option<&str>) -> (r: ClientConfig)
    ensures
        config_entries(r) == consumer_entries(
            brokers@,
            match group {
                Some(g) => Some(g@),
                None => None,
            },
        ),
{
    let mut config = base_config(brokers);
    set_param(&mut config, "enable.auto.commit", "false");
    set_param(&mut config, "auto.offset.reset", "earliest");
    match group {
        Some(g) => set_param(&mut config, "group.id", g),
        None => set_param(&mut config, "group.id", "stryke-kafka-snapshot"),
    }
    config
}

// ---- configurations from the connection flags ----

/// The flags that say how to reach the brokers.
#[derive(Debug, Clone)]
pub struct KafkaConn {
    /// `host1:9092,host2:9092`: the bootstrap servers.
    pub brokers: Option<String>,
    /// `PLAINTEXT`, `SSL`, `SASL_PLAINTEXT` or `SASL_SSL`.
    pub security_protocol: Option<String>,
    pub sasl_mechanism: Option<String>,
    pub sasl_username: Option<String>,
    pub sasl_password: Option<String>,
    pub ssl_ca: Option<String>,
    pub ssl_cert: Option<String>,
    pub ssl_key: Option<String>,
    pub ssl_key_password: Option<String>,
    /// Raw parameters, each of the form `K=V`.
    pub extra_conf: Vec<String>,
    /// Connection and request timeout in milliseconds.
    pub timeout_ms: u64,
    /// The client id reported to the brokers.
    pub client_id: String,
}

/// The length of a duration in nanoseconds.
pub uninterp spec fn duration_nanos(duration: Duration) -> nat;

/// `Duration::from_millis`: a duration of that many milliseconds.
pub assume_specification[ Duration::from_millis ](millis: u64) -> (r: Duration)
    ensures
        duration_nanos(r) == millis as nat * 1_000_000,
;

/// The parameters with one set, where there is a value for it.
pub open spec fn with_flag(
    entries: Map<Seq<char>, Seq<char>>,
    key: Seq<char>,
    value: Option<String>,
) -> Map<Seq<char>, Seq<char>> {
    match value {
        Some(v) => entries.insert(key, v@),
        None => entries,
    }
}

/// The parameters with `K=V` overrides laid over them, one after the other. The
/// key ends at the first `=`; the first override without one is refused.
pub open spec fn overridden(entries: Map<Seq<char>, Seq<char>>, kvs: Seq<Seq<char>>) -> Result<
    Map<Seq<char>, Seq<char>>,
    Seq<char>,
>
    decreases kvs.len(),
{
    if kvs.len() == 0 {
        Ok(entries)
    } else {
        match (overridden(entries, kvs.drop_last()), split_first(kvs.last(), '=')) {
            (Err(message), _) => Err(message),
            (Ok(before), Some((k, v))) => Ok(before.insert(k, v)),
            (Ok(_), None) => Err("invalid -X k=v form: "@ + kvs.last()),
        }
    }
}

impl KafkaConn {
    /// The parameters that the flags with names of their own stand for.
    pub open spec fn flag_entries(self, brokers: Seq<char>) -> Map<Seq<char>, Seq<char>> {
        let m = no_entries().insert("bootstrap.servers"@, brokers).insert(
            "client.id"@,
            self.client_id@,
        ).insert("socket.timeout.ms"@, decimal(self.timeout_ms as nat));
        let m = with_flag(m, "security.protocol"@, self.security_protocol);
        let m = with_flag(m, "sasl.mechanism"@, self.sasl_mechanism);
        let m = with_flag(m, "sasl.username"@, self.sasl_username);
        let m = with_flag(m, "sasl.password"@, self.sasl_password);
        let m = with_flag(m, "ssl.ca.location"@, self.ssl_ca);
        let m = with_flag(m, "ssl.certificate.location"@, self.ssl_cert);
        let m = with_flag(m, "ssl.key.location"@, self.ssl_key);
        with_flag(m, "ssl.key.password"@, self.ssl_key_password)
    }

    /// All the parameters that the flags stand for.
    pub open spec fn entries(self) -> Result<Map<Seq<char>, Seq<char>>, Seq<char>> {
        match self.brokers {
            None => Err("--brokers required (or $KAFKA_BROKERS)"@),
            Some(brokers) => overridden(self.flag_entries(brokers@), texts(self.extra_conf@)),
        }
    }

    /// The timeout as a duration.
    pub fn timeout(&self) -> (r: Duration)
        ensures
            duration_nanos(r) == self.timeout_ms as nat * 1_000_000,
    {
        Duration::from_millis(self.timeout_ms)
    }

    /// The configuration that the flags stand for.
    pub fn build_config(&self) -> (r: Result<ClientConfig, OpError>)
        ensures
            configures(r, self.entries()),
    {
        let brokers = match &self.brokers {
            Some(brokers) => brokers,
            None => {
                return Err(OpError::new("--brokers required (or $KAFKA_BROKERS)"));
            },
        };
        let mut config = ClientConfig::new();
        set_param(&mut config, "bootstrap.servers", brokers.as_str());
        set_param(&mut config, "client.id", self.client_id.as_str());
        set_param(&mut config, "socket.timeout.ms", to_decimal(self.timeout_ms).as_str());
        set_flag(&mut config, "security.protocol", &self.security_protocol);
        set_flag(&mut config, "sasl.mechanism", &self.sasl_mechanism);
        set_flag(&mut config, "sasl.username", &self.sasl_username);
        set_flag(&mut config, "sasl.password", &self.sasl_password);
        set_flag(&mut config, "ssl.ca.location", &self.ssl_ca);
        set_flag(&mut config, "ssl.certificate.location", &self.ssl_cert);
        set_flag(&mut config, "ssl.key.location", &self.ssl_key);
        set_flag(&mut config, "ssl.key.password", &self.ssl_key_password);
        let ghost flags = config_entries(config);
        assert(flags == self.flag_entries(brokers@));
        let ghost all = texts(self.extra_conf@);
        let mut i: usize = 0;
        assert(all.take(0) =~= Seq::empty());
        while i < self.extra_conf.len()
            invariant
                i <= self.extra_conf@.len(),
                all == texts(self.extra_conf@),
                self.brokers is Some,
                self.entries() == overridden(flags, all),
                overridden(flags, all.take(i as int)) == Ok::<_, Seq<char>>(config_entries(config)),
            decreases self.extra_conf@.len() - i,
        {
            let kv = self.extra_conf[i].as_str();
            proof {
                assert(all.take(i + 1).drop_last() =~= all.take(i as int));
                assert(all.take(i + 1).last() == kv@);
            }
            match split_once(kv, '=') {
                Some((k, v)) => set_param(&mut config, k.as_str(), v.as_str()),
                None => {
                    proof {
                        lemma_refused(flags, all, i + 1);
                    }
                    return Err(OpError { message: concat2("invalid -X k=v form: ", kv) });
                },
            }
            i = i + 1;
        }
        assert(all.take(i as int) =~= all);
        Ok(config)
    }
}

/// The parameters with one more set, where there are any.
pub open spec fn and_set(
    entries: Result<Map<Seq<char>, Seq<char>>, Seq<char>>,
    key: Seq<char>,
    value: Seq<char>,
) -> Result<Map<Seq<char>, Seq<char>>, Seq<char>> {
    match entries {
        Ok(m) => Ok(m.insert(key, value)),
        Err(message) => Err(message),
    }
}

impl KafkaConn {
    /// What a producer is told: to give a message the timeout.
    pub open spec fn producer_entries(self) -> Result<Map<Seq<char>, Seq<char>>, Seq<char>> {
        and_set(self.entries(), "message.timeout.ms"@, decimal(self.timeout_ms as nat))
    }

    /// What the client that reads a group's offsets is told: not to commit any.
    pub open spec fn lag_entries(self, group: Seq<char>) -> Result<
        Map<Seq<char>, Seq<char>>,
        Seq<char>,
    > {
        and_set(and_set(self.entries(), "group.id"@, group), "enable.auto.commit"@, "false"@)
    }

    /// The configuration of a producer: a message is given the timeout.
    pub fn producer_config(&self) -> (r: Result<ClientConfig, OpError>)
        ensures
            configures(r, self.producer_entries()),
            configures(
                r,
                and_set(self.entries(), "message.timeout.ms"@, decimal(self.timeout_ms as nat)),
            ),
    {
        match self.build_config() {
            Ok(c) => {
                let mut config = c;
                set_param(&mut config, "message.timeout.ms", to_decimal(self.timeout_ms).as_str());
                Ok(config)
            },
            Err(e) => Err(e),
        }
    }

    /// What a consumer of a group is told: where to start without a committed
    /// offset, whether to commit, and not to report the end of a partition.
    pub open spec fn consumer_entries(
        self,
        group: Seq<char>,
        offset_reset: Seq<char>,
        commit: bool,
    ) -> Result<Map<Seq<char>, Seq<char>>, Seq<char>> {
        let m = and_set(self.entries(), "group.id"@, group);
        let m = and_set(m, "auto.offset.reset"@, offset_reset);
        let m = and_set(
            m,
            "enable.auto.commit"@,
            if commit {
                "true"@
            } else {
                "false"@
            },
        );
        and_set(m, "enable.partition.eof"@, "false"@)
    }

    /// The configuration of a consumer of a group.
    pub fn consumer_config(&self, group: &str, offset_reset: &str, commit: bool) -> (r: Result<
        ClientConfig,
        OpError,
    >)
        ensures
            configures(r, self.consumer_entries(group@, offset_reset@, commit)),
    {
        match self.build_config() {
            Ok(c) => {
                let mut config = c;
                set_param(&mut config, "group.id", group);
                set_param(&mut config, "auto.offset.reset", offset_reset);
                set_param(
                    &mut config,
                    "enable.auto.commit",
                    if commit {
                        "true"
                    } else {
                        "false"
                    },
                );
                set_param(&mut config, "enable.partition.eof", "false");
                Ok(config)
            },
            Err(e) => Err(e),
        }
    }

    /// The configuration of the client that reads a group's offsets and leaves
    /// them alone.
    pub fn lag_config(&self, group: &str) -> (r: Result<ClientConfig, OpError>)
        ensures
            configures(r, self.lag_entries(group@)),
            configures(
                r,
                and_set(
                    and_set(self.entries(), "group.id"@, group@),
                    "enable.auto.commit"@,
                    "false"@,
                ),
            ),
    {
        match self.build_config() {
            Ok(c) => {
                let mut config = c;
                set_param(&mut config, "group.id", group);
                set_param(&mut config, "enable.auto.commit", "false");
                Ok(config)
            },
            Err(e) => Err(e),
        }
    }
}

fn set_flag(config: &mut ClientConfig, key: &str, value: &Option<String>)
    ensures
        config_entries(*final(config)) == with_flag(config_entries(*old(config)), key@, *value),
{
    if let Some(v) = value {
        set_param(config, key, v.as_str());
    }
}

/// What is refused stays refused, whatever comes after.
proof fn lemma_refused(entries: Map<Seq<char>, Seq<char>>, kvs: Seq<Seq<char>>, n: int)
    requires
        0 <= n <= kvs.len(),
        overridden(entries, kvs.take(n)) is Err,
    ensures
        overridden(entries, kvs) == overridden(entries, kvs.take(n)),
    decreases kvs.len(),
{
    if n == kvs.len() {
        assert(kvs.take(n) =~= kvs);
    } else {
        assert(kvs.drop_last().take(n) =~= kvs.take(n));
        lemma_refused(entries, kvs.drop_last(), n);
    }
}

/// The value that the last override of a parameter gives it.
pub open spec fn override_of(kvs: Seq<Seq<char>>, key: Seq<char>) -> Option<Seq<char>>
    decreases kvs.len(),
{
    if kvs.len() == 0 {
        None
    } else {
        match split_first(kvs.last(), '=') {
            Some((k, v)) if k == key => Some(v),
            _ => override_of(kvs.drop_last(), key),
        }
    }
}

/// Of several overrides of a parameter the last one counts; one that is not
/// overridden keeps its value.
pub proof fn law_last_override_counts(
    entries: Map<Seq<char>, Seq<char>>,
    kvs: Seq<Seq<char>>,
    key: Seq<char>,
)
    requires
        overridden(entries, kvs) is Ok,
    ensures
        overridden(entries, kvs)->Ok_0.get(key) == match override_of(kvs, key) {
            Some(v) => Some(v),
            None => entries.get(key),
        },
    decreases kvs.len(),
{
    if kvs.len() > 0 {
        law_last_override_counts(entries, kvs.drop_last(), key);
    }
}

/// Overrides are accepted exactly where each has the form `K=V`.
pub proof fn law_overrides_accepted(entries: Map<Seq<char>, Seq<char>>, kvs: Seq<Seq<char>>)
    ensures
        overridden(entries, kvs) is Ok <==> forall|i: int|
            0 <= i < kvs.len() ==> (#[trigger] kvs[i]).contains('='),
    decreases kvs.len(),
{
    if kvs.len() > 0 {
        let init = kvs.drop_last();
        law_overrides_accepted(entries, init);
        kvs.last().index_of_first_ensures('=');
        assert(kvs[kvs.len() - 1] == kvs.last());
        assert forall|i: int| 0 <= i < init.len() implies #[trigger] init[i] == kvs[i] by {}
        if forall|i: int| 0 <= i < kvs.len() ==> (#[trigger] kvs[i]).contains('=') {
            assert forall|i: int| 0 <= i < init.len() implies (#[trigger] init[i]).contains('=') by {
                assert(kvs[i].contains('='));
            }
        }
        if overridden(entries, kvs) is Ok {
            assert forall|i: int| 0 <= i < kvs.len() implies (#[trigger] kvs[i]).contains('=') by {
                if i < init.len() {
                    assert(init[i].contains('='));
                }
            }
        }
    }
}

/// Each flag sets the parameter that it is for, and no other: the brokers, the client id
/// and the timeout always, the others exactly where they are given. Nothing else is set.
pub proof fn law_flags_set_parameters(conn: KafkaConn, brokers: Seq<char>, key: Seq<char>)
    ensures
        conn.flag_entries(brokers).get("bootstrap.servers"@) == Some(brokers),
        conn.flag_entries(brokers).get("client.id"@) == Some(conn.client_id@),
        conn.flag_entries(brokers).get("socket.timeout.ms"@) == Some(
            decimal(conn.timeout_ms as nat),
        ),
        match conn.security_protocol {
            Some(v) => conn.flag_entries(brokers).get("security.protocol"@) == Some(v@),
            None => conn.flag_entries(brokers).get("security.protocol"@) is None,
        },
        match conn.sasl_mechanism {
            Some(v) => conn.flag_entries(brokers).get("sasl.mechanism"@) == Some(v@),
            None => conn.flag_entries(brokers).get("sasl.mechanism"@) is None,
        },
        match conn.sasl_username {
            Some(v) => conn.flag_entries(brokers).get("sasl.username"@) == Some(v@),
            None => conn.flag_entries(brokers).get("sasl.username"@) is None,
        },
        match conn.sasl_password {
            Some(v) => conn.flag_entries(brokers).get("sasl.password"@) == Some(v@),
            None => conn.flag_entries(brokers).get("sasl.password"@) is None,
        },
        match conn.ssl_ca {
            Some(v) => conn.flag_entries(brokers).get("ssl.ca.location"@) == Some(v@),
            None => conn.flag_entries(brokers).get("ssl.ca.location"@) is None,
        },
        match conn.ssl_cert {
            Some(v) => conn.flag_entries(brokers).get("ssl.certificate.location"@) == Some(v@),
            None => conn.flag_entries(brokers).get("ssl.certificate.location"@) is None,
        },
        match conn.ssl_key {
            Some(v) => conn.flag_entries(brokers).get("ssl.key.location"@) == Some(v@),
            None => conn.flag_entries(brokers).get("ssl.key.location"@) is None,
        },
        match conn.ssl_key_password {
            Some(v) => conn.flag_entries(brokers).get("ssl.key.password"@) == Some(v@),
            None => conn.flag_entries(brokers).get("ssl.key.password"@) is None,
        },
        key != "bootstrap.servers"@
            && key != "client.id"@
            && key != "socket.timeout.ms"@
            && key != "security.protocol"@
            && key != "sasl.mechanism"@
            && key != "sasl.username"@
            && key != "sasl.password"@
            && key != "ssl.ca.location"@
            && key != "ssl.certificate.location"@
            && key != "ssl.key.location"@
            && key != "ssl.key.password"@
            ==> conn.flag_entries(brokers).get(key) is None,
{
    reveal_strlit("bootstrap.servers");
    reveal_strlit("client.id");
    reveal_strlit("socket.timeout.ms");
    reveal_strlit("security.protocol");
    reveal_strlit("sasl.mechanism");
    reveal_strlit("sasl.username");
    reveal_strlit("sasl.password");
    reveal_strlit("ssl.ca.location");
    reveal_strlit("ssl.certificate.location");
    reveal_strlit("ssl.key.location");
    reveal_strlit("ssl.key.password");
    assert("bootstrap.servers"@.len() == 17
        && "client.id"@.len() == 9
        && "socket.timeout.ms"@.len() == 17
        && "security.protocol"@.len() == 17
        && "sasl.mechanism"@.len() == 14
        && "sasl.username"@.len() == 13
        && "sasl.password"@.len() == 13
        && "ssl.ca.location"@.len() == 15
        && "ssl.certificate.location"@.len() == 24
        && "ssl.key.location"@.len() == 16
        && "ssl.key.password"@.len() == 16);
    assert("bootstrap.servers"@[0] == 'b');
    assert("socket.timeout.ms"@[0] == 's');
    assert("security.protocol"@[0] == 's');
    assert("socket.timeout.ms"@[1] == 'o');
    assert("security.protocol"@[1] == 'e');
    assert("sasl.username"@[5] == 'u');
    assert("sasl.password"@[5] == 'p');
    assert("ssl.key.location"@[8] == 'l');
    assert("ssl.key.password"@[8] == 'p');
}

/// The brokers must be given. Then every parameter has the value that the last override
/// `K=V` of it gives, or else the one that the flags give it, if they do.
pub proof fn law_parameter_set(conn: KafkaConn, key: Seq<char>, value: Seq<char>, i: int)
    requires
        !key.contains('='),
    ensures
        conn.brokers is None ==> conn.entries() == Err::<Map<Seq<char>, Seq<char>>, Seq<char>>(
            "--brokers required (or $KAFKA_BROKERS)"@,
        ),
        conn.entries() matches Ok(set) ==> conn.brokers matches Some(brokers) && (0 <= i
            < conn.extra_conf@.len() && conn.extra_conf@[i]@ == key + seq!['='] + value && (forall|
            j: int,
        |
            i < j < conn.extra_conf@.len() ==> !(key + seq!['=']).is_prefix_of(
                (#[trigger] conn.extra_conf@[j])@,
            )) ==> set.get(key) == Some(value)) && ((forall|j: int|
            0 <= j < conn.extra_conf@.len() ==> !(key + seq!['=']).is_prefix_of(
                (#[trigger] conn.extra_conf@[j])@,
            )) ==> set.get(key) == conn.flag_entries(brokers@).get(key)),
{
    if let Some(brokers) = conn.brokers {
        let kvs = texts(conn.extra_conf@);
        assert forall|j: int| 0 <= j < kvs.len() implies #[trigger] kvs[j]
            == conn.extra_conf@[j]@ by {}
        if conn.entries() is Ok {
            law_last_override_counts(conn.flag_entries(brokers@), kvs, key);
            lemma_override_of(kvs, key, value, i);
        }
    }
}

proof fn lemma_override_of(kvs: Seq<Seq<char>>, key: Seq<char>, value: Seq<char>, i: int)
    requires
        !key.contains('='),
    ensures
        0 <= i < kvs.len() && kvs[i] == key + seq!['='] + value && (forall|j: int|
            i < j < kvs.len() ==> !(key + seq!['=']).is_prefix_of(#[trigger] kvs[j]))
            ==> override_of(kvs, key) == Some(value),
        (forall|j: int| 0 <= j < kvs.len() ==> !(key + seq!['=']).is_prefix_of(#[trigger] kvs[j]))
            ==> override_of(kvs, key) is None,
    decreases kvs.len(),
{
    if kvs.len() > 0 {
        let init = kvs.drop_last();
        let last = kvs.last();
        let mark = key + seq!['='];
        assert forall|j: int| 0 <= j < init.len() implies #[trigger] init[j] == kvs[j] by {}
        lemma_override_of(init, key, value, i);
        law_split_first(last, '=');
        if mark.is_prefix_of(last) {
            lemma_key_of(last, key);
        } else if let Some((k, v)) = split_first(last, '=') {
            if k == key {
                assert(last.take(mark.len() as int) =~= mark);
            }
        }
        assert(kvs[kvs.len() - 1] == last);
        if i == kvs.len() - 1 && last == mark + value {
            assert(last.take(mark.len() as int) =~= mark);
            assert(last.skip(mark.len() as int) =~= value);
        }
    }
}

proof fn lemma_key_of(kv: Seq<char>, key: Seq<char>)
    requires
        !key.contains('='),
        (key + seq!['=']).is_prefix_of(kv),
    ensures
        split_first(kv, '=') == Some((key, kv.skip(key.len() as int + 1))),
{
    let mark = key + seq!['='];
    let at = key.len() as int;
    assert(kv.take(mark.len() as int) =~= mark);
    assert(kv[at] == kv.take(mark.len() as int)[at]);
    assert forall|j: int| 0 <= j < at implies kv[j] != '=' by {
        assert(kv[j] == kv.take(mark.len() as int)[j]);
        assert(mark[j] == key[j]);
        assert(key.contains(key[j]));
    }
    lemma_first_index(kv, '=', at);
    assert(kv.take(at) =~= key);
}

/// An override without `=` is refused by its text: the first of them.
pub proof fn law_override_refused(entries: Map<Seq<char>, Seq<char>>, kvs: Seq<Seq<char>>, i: int)
    requires
        0 <= i < kvs.len(),
        !kvs[i].contains('='),
        forall|j: int| 0 <= j < i ==> (#[trigger] kvs[j]).contains('='),
    ensures
        overridden(entries, kvs) == Err::<Map<Seq<char>, Seq<char>>, Seq<char>>(
            "invalid -X k=v form: "@ + kvs[i],
        ),
{
    let upto = kvs.take(i + 1);
    let before = kvs.take(i);
    assert(upto.drop_last() =~= before);
    law_overrides_accepted(entries, before);
    assert forall|j: int| 0 <= j < before.len() implies (#[trigger] before[j]).contains('=') by {
        assert(kvs[j].contains('='));
    }
    law_split_first(kvs[i], '=');
    if let Some((k, v)) = split_first(kvs[i], '=') {
        assert(kvs[i][k.len() as int] == '=');
    }
    lemma_refused(entries, kvs, i + 1);
}

/// Clients of a kind are told, over all else, what their kind is told: a producer how long
/// a message may take; a consumer its group, where to start, whether to commit, and not to
/// report the end of a partition; one that reads offsets its group, and not to commit. All
/// other parameters are as they were, and what is refused is refused.
pub proof fn law_kinds_of_clients(
    conn: KafkaConn,
    group: Seq<char>,
    reset: Seq<char>,
    commit: bool,
    key: Seq<char>,
)
    ensures
        match conn.entries() {
            Err(message) => conn.producer_entries() == conn.entries() && conn.consumer_entries(
                group,
                reset,
                commit,
            ) == conn.entries() && conn.lag_entries(group) == conn.entries(),
            Ok(all) => {
                &&& conn.producer_entries() matches Ok(set) && set.get("message.timeout.ms"@)
                    == Some(decimal(conn.timeout_ms as nat)) && (key != "message.timeout.ms"@
                    ==> set.get(key) == all.get(key))
                &&& conn.consumer_entries(group, reset, commit) matches Ok(set) && set.get(
                    "group.id"@,
                ) == Some(group) && set.get("auto.offset.reset"@) == Some(reset) && set.get(
                    "enable.auto.commit"@,
                ) == Some(
                    if commit {
                        "true"@
                    } else {
                        "false"@
                    },
                ) && set.get("enable.partition.eof"@) == Some("false"@) && (key != "group.id"@
                    && key != "auto.offset.reset"@ && key != "enable.auto.commit"@ && key
                    != "enable.partition.eof"@ ==> set.get(key) == all.get(key))
                &&& conn.lag_entries(group) matches Ok(set) && set.get("group.id"@) == Some(group)
                    && set.get("enable.auto.commit"@) == Some("false"@) && (key != "group.id"@
                    && key != "enable.auto.commit"@ ==> set.get(key) == all.get(key))
            },
        },
{
    reveal_strlit("message.timeout.ms");
    reveal_strlit("group.id");
    reveal_strlit("auto.offset.reset");
    reveal_strlit("enable.auto.commit");
    reveal_strlit("enable.partition.eof");
    assert("message.timeout.ms"@.len() == 18
        && "group.id"@.len() == 8
        && "auto.offset.reset"@.len() == 17
        && "enable.auto.commit"@.len() == 18
        && "enable.partition.eof"@.len() == 20);
    assert("message.timeout.ms"@[0] == 'm');
    assert("enable.auto.commit"@[0] == 'e');
}

/// A client made from the brokers alone is told them and nothing else; a producer also to
/// give a message ten seconds; a consumer also its group, or the one for snapshots, to
/// start with the earliest message, and not to commit by itself.
pub proof fn law_clients_from_brokers(brokers: Seq<char>, group: Option<Seq<char>>, key: Seq<char>)
    ensures
        base_entries(brokers).get(key) == (if key == "bootstrap.servers"@ {
            Some(brokers)
        } else {
            None
        }),
        producer_entries(brokers).get(key) == (if key == "bootstrap.servers"@ {
            Some(brokers)
        } else if key == "message.timeout.ms"@ {
            Some("10000"@)
        } else {
            None
        }),
        consumer_entries(brokers, group).get(key) == (if key == "bootstrap.servers"@ {
            Some(brokers)
        } else if key == "enable.auto.commit"@ {
            Some("false"@)
        } else if key == "auto.offset.reset"@ {
            Some("earliest"@)
        } else if key == "group.id"@ {
            match group {
                Some(g) => Some(g),
                None => Some("stryke-kafka-snapshot"@),
            }
        } else {
            None
        }),
{
    reveal_strlit("bootstrap.servers");
    reveal_strlit("message.timeout.ms");
    reveal_strlit("enable.auto.commit");
    reveal_strlit("auto.offset.reset");
    reveal_strlit("group.id");
    assert("bootstrap.servers"@.len() == 17
        && "message.timeout.ms"@.len() == 18
        && "enable.auto.commit"@.len() == 18
        && "auto.offset.reset"@.len() == 17
        && "group.id"@.len() == 8);
    assert("bootstrap.servers"@[0] == 'b');
    assert("auto.offset.reset"@[0] == 'a');
    assert("message.timeout.ms"@[0] == 'm');
    assert("enable.auto.commit"@[0] == 'e');
}

/// A configuration agrees with its model where it has those parameters and no others, a
/// failure where it has that message.
pub proof fn law_configures(
    r: Result<ClientConfig, OpError>,
    model: Result<Map<Seq<char>, Seq<char>>, Seq<char>>,
)
    ensures
        configures(r, model) <==> match (r, model) {
            (Ok(config), Ok(entries)) => config_entries(config) == entries,
            (Err(e), Err(message)) => e.message@ == message,
            _ => false,
        },
        no_entries() == Map::<Seq<char>, Seq<char>>::empty(),
{
}

} // verus!
