//! The rdkafka collections the Kafka source fills: the client settings map and
//! the topic-partition-offset list handed to the consumer for storing offsets.
use vstd::prelude::*;
use rdkafka::config::ClientConfig;
use rdkafka::{Offset, TopicPartitionList};

verus! {

#[verifier::external_type_specification]
#[verifier::external_body]
pub struct ExClientConfig(ClientConfig);

#[verifier::external_type_specification]
#[verifier::external_body]
pub struct ExTopicPartitionList(TopicPartitionList);

/// The settings a `ClientConfig` holds, by name.
pub uninterp spec fn client_config_entries(c: ClientConfig) -> Map<Seq<char>, Seq<char>>;

/// The elements of a `TopicPartitionList`, in order: topic, partition and raw offset.
pub uninterp spec fn partition_list_entries(l: TopicPartitionList) -> Seq<(Seq<char>, i32, i64)>;

/// The empty settings map.
pub open spec fn no_settings() -> Map<Seq<char>, Seq<char>> {
    Map::empty()
}

/// `ClientConfig::new`: a configuration with no settings (its settings map starts empty).
#[verifier::external_body]
pub(crate) fn client_config_new() -> (r: ClientConfig)
    ensures
        client_config_entries(r) == no_settings(),
{
    ClientConfig::new()
}

/// `ClientConfig::set`: inserts `value` under `key` into the settings map,
/// replacing an earlier value of that key.
#[verifier::external_body]
pub(crate) fn client_config_set(config: &mut ClientConfig, key: &str, value: &str)
    ensures
        client_config_entries(*final(config)) == client_config_entries(*old(config)).insert(
            key@,
            value@,
        ),
{
    config.set(key, value);
}

/// `TopicPartitionList::new`: an empty list.
#[verifier::external_body]
pub(crate) fn partition_list_new() -> (r: TopicPartitionList)
    ensures
        partition_list_entries(r).len() == 0,
{
    TopicPartitionList::new()
}

/// `TopicPartitionList::add_partition` followed by `set_offset(Offset::from_raw(offset))`
/// on the new element: appends one element. `add_partition` panics on a topic with a NUL
/// character, and `set_offset` fails only for offsets that `from_raw` maps to a negative
/// `Offset::Offset`; neither can happen here.
#[verifier::external_body]
pub(crate) fn partition_list_add(list: &mut TopicPartitionList, topic: &str, partition: i32, offset: i64)
    requires
        offset >= 0,
        !topic@.contains('\0'),
    ensures
        partition_list_entries(*final(list)) == partition_list_entries(*old(list)).push(
            (topic@, partition, offset),
        ),
{
    list.add_partition(topic, partition).set_offset(Offset::from_raw(offset)).expect(
        "Setting offset failed",
    );
}

} // verus!
