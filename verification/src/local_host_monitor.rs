//! The state of the local machine.

use crate::monitor::{replaced, LocalHostMonitorRecord, MonitorRecord, MonitorTarget};
use crate::number::{decimal, push_decimal};
use crate::rounding::{
    apart, as_binary32, as_binary64, law_binary32_is_near, law_binary64_is_near,
    law_tenths_text_is_nearest, law_whole_text_is_nearest, push_tenths, push_whole, tenths_text,
    to_binary32, to_binary64, whole_text, with_one_decimal,
};
use crate::text::{chars_of, has_prefix, starts_with};
use vstd::prelude::*;
use vstd::string::StringExecFns;

verus! {

/// The text of a speed in bytes per second: with one decimal from one MB/s on.
pub open spec fn speed_text(bytes: nat) -> Seq<char> {
    let speed = as_binary64(bytes);
    if speed < 1024 {
        decimal(speed) + " B/s"@
    } else if speed < 1024 * 1024 {
        whole_text(speed, 1024) + " KB/s"@
    } else if speed < 1024 * 1024 * 1024 {
        tenths_text(speed, 1024 * 1024) + " MB/s"@
    } else {
        tenths_text(speed, 1024 * 1024 * 1024) + " GB/s"@
    }
}

/// The text of a speed in bytes per second.
pub fn format_speed(bytes: u64) -> (res: String)
    ensures
        res@ == speed_text(bytes as nat),
{
    let speed = to_binary64(bytes);
    let mut out = String::new();
    if speed < 1024 {
        push_decimal(&mut out, speed as u64);
        out.append(" B/s");
    } else if speed < 1024 * 1024 {
        push_whole(&mut out, speed as u64, 1024);
        out.append(" KB/s");
    } else if speed < 1024 * 1024 * 1024 {
        push_tenths(&mut out, speed, 1024 * 1024);
        out.append(" MB/s");
    } else {
        push_tenths(&mut out, speed, 1024 * 1024 * 1024);
        out.append(" GB/s");
    }
    assert(out@ =~= speed_text(bytes as nat));
    out
}

/// An amount of memory in GiB with one decimal.
pub open spec fn memory_text(bytes: nat) -> Seq<char> {
    tenths_text(as_binary32(bytes), 1024 * 1024 * 1024)
}

/// An amount of memory in GiB with one decimal.
pub fn format_memory(bytes: u64) -> (res: String)
    ensures
        res@ == memory_text(bytes as nat),
{
    let mut out = String::new();
    push_tenths(&mut out, to_binary32(bytes), 1024 * 1024 * 1024);
    assert(out@ =~= memory_text(bytes as nat));
    out
}

/// A network interface: its traffic in all, and since it was last looked at.
#[derive(Debug)]
pub struct NetworkInterface {
    pub name: String,
    pub total_received: u64,
    pub total_transmitted: u64,
    pub received: u64,
    pub transmitted: u64,
}

/// Whether an interface is virtual or a loopback, by its name.
pub open spec fn ignored_interface(name: Seq<char>) -> bool {
    ||| has_prefix(name, "lo"@)
    ||| has_prefix(name, "docker"@)
    ||| has_prefix(name, "veth"@)
    ||| has_prefix(name, "br-"@)
    ||| has_prefix(name, "tun"@)
    ||| has_prefix(name, "virbr"@)
    ||| has_prefix(name, "VMware"@)
}

/// Whether an interface is virtual or a loopback, by its name.
pub fn is_ignored_interface(name: &Vec<char>) -> (res: bool)
    ensures
        res == ignored_interface(name@),
{
    starts_with(name, &chars_of("lo")) || starts_with(name, &chars_of("docker")) || starts_with(
        name,
        &chars_of("veth"),
    ) || starts_with(name, &chars_of("br-")) || starts_with(name, &chars_of("tun")) || starts_with(
        name,
        &chars_of("virbr"),
    ) || starts_with(name, &chars_of("VMware"))
}

/// The traffic of an interface in all.
pub open spec fn traffic(net: NetworkInterface) -> nat {
    (net.total_received + net.total_transmitted) as nat
}

/// The name and the traffic of the busiest interface that is not ignored, going
/// through the interfaces in order: a later one has to be busier. An interface
/// without a name gives way to any later one.
pub open spec fn busiest(nets: Seq<NetworkInterface>) -> (Seq<char>, nat)
    decreases nets.len(),
{
    if nets.len() == 0 {
        (Seq::empty(), 0)
    } else {
        let (name, most) = busiest(nets.drop_last());
        let net = nets.last();
        if ignored_interface(net.name@) {
            (name, most)
        } else if name.len() == 0 || traffic(net) > most {
            (net.name@, traffic(net))
        } else {
            (name, most)
        }
    }
}

/// The name of the main interface: of the busiest one; failing that, of the
/// first one.
pub open spec fn main_interface(nets: Seq<NetworkInterface>) -> Seq<char> {
    let name = busiest(nets).0;
    if name.len() > 0 {
        name
    } else if nets.len() > 0 {
        nets[0].name@
    } else {
        "unknown"@
    }
}

/// Whether the traffic of every interface that counts can be added up.
pub open spec fn traffic_fits(nets: Seq<NetworkInterface>) -> bool {
    forall|i: int|
        0 <= i < nets.len() && !ignored_interface((#[trigger] nets[i]).name@) ==> traffic(nets[i])
            <= u64::MAX
}

/// Whether the traffic of every interface that counts can be added up.
pub fn has_sane_traffic(networks: &Vec<NetworkInterface>) -> (res: bool)
    ensures
        res == traffic_fits(networks@),
{
    let mut i: usize = 0;
    while i < networks.len()
        invariant
            i <= networks.len(),
            traffic_fits(networks@.take(i as int)),
        decreases networks.len() - i,
    {
        let net = &networks[i];
        if !is_ignored_interface(&chars_of(net.name.as_str())) && net.total_received > u64::MAX
            - net.total_transmitted {
            assert(!traffic_fits(networks@)) by {
                assert(traffic(networks@[i as int]) > u64::MAX);
            }
            return false;
        }
        proof {
            assert forall|j: int|
                0 <= j < i + 1 && !ignored_interface(
                    (#[trigger] networks@.take(i + 1)[j]).name@,
                ) implies traffic(networks@.take(i + 1)[j]) <= u64::MAX by {
                if j < i {
                    assert(networks@.take(i as int)[j] == networks@.take(i + 1)[j]);
                }
            }
        }
        i += 1;
    }
    assert(networks@.take(i as int) =~= networks@);
    true
}

/// The name of the main network interface.
pub fn get_main_interface_name(networks: &Vec<NetworkInterface>) -> (res: String)
    requires
        traffic_fits(networks@),
    ensures
        res@ == main_interface(networks@),
{
    let mut max_traffic: u64 = 0;
    let mut main: String = String::new();
    let mut i: usize = 0;
    while i < networks.len()
        invariant
            i <= networks.len(),
            traffic_fits(networks@),
            (main@, max_traffic as nat) == busiest(networks@.take(i as int)),
        decreases networks.len() - i,
    {
        let net = &networks[i];
        assert(networks@.take(i + 1).drop_last() =~= networks@.take(i as int));
        assert(networks@.take(i + 1).last() == *net);
        if !is_ignored_interface(&chars_of(net.name.as_str())) {
            assert(traffic(networks@[i as int]) <= u64::MAX);
            let current: u64 = net.total_received + net.total_transmitted;
            if main.as_str().is_empty() || current > max_traffic {
                max_traffic = current;
                main = net.name.clone();
            }
        }
        i += 1;
    }
    assert(networks@.take(i as int) =~= networks@);
    if main.as_str().is_empty() {
        if networks.len() > 0 {
            return networks[0].name.clone();
        }
        return "unknown".to_string();
    }
    main
}

/// The traffic since the last look of the first interface with the given name.
pub open spec fn recent_traffic(nets: Seq<NetworkInterface>, name: Seq<char>) -> (u64, u64)
    decreases nets.len(),
{
    if nets.len() == 0 {
        (0, 0)
    } else if nets[0].name@ == name {
        (nets[0].received, nets[0].transmitted)
    } else {
        recent_traffic(nets.skip(1), name)
    }
}

/// The traffic since the last look of the interface with the given name.
fn interface_traffic(networks: &Vec<NetworkInterface>, name: &String) -> (res: (u64, u64))
    ensures
        res == recent_traffic(networks@, name@),
{
    let mut i: usize = 0;
    assert(networks@.skip(0) =~= networks@);
    while i < networks.len()
        invariant
            i <= networks.len(),
            recent_traffic(networks@, name@) == recent_traffic(networks@.skip(i as int), name@),
        decreases networks.len() - i,
    {
        if networks[i].name == *name {
            return (networks[i].received, networks[i].transmitted);
        }
        assert(networks@.skip(i as int).skip(1) =~= networks@.skip(i + 1));
        i += 1;
    }
    (0, 0)
}

/// Whether a record is that of the local machine: the load as it was measured,
/// the used memory, and the traffic of the main interface since the last look.
pub open spec fn is_host_record(
    record: LocalHostMonitorRecord,
    id: usize,
    cpu_usage_bits: u32,
    used_memory: u64,
    traffic: (u64, u64),
    timestamp: String,
) -> bool {
    &&& record.mt_id == id
    &&& record.cpu_usage_bits == cpu_usage_bits
    &&& record.memory_usage@ == memory_text(used_memory as nat)
    &&& record.disk_usage_bits == 0
    &&& record.timestamp == timestamp
    &&& record.download_speed@ == speed_text(traffic.0 as nat)
    &&& record.upload_speed@ == speed_text(traffic.1 as nat)
    &&& record.network_saturation == 0
}

/// Whether a target shows a measurement of the local machine, and is as before
/// otherwise.
pub open spec fn shows_measurement(
    before: MonitorTarget,
    after: MonitorTarget,
    id: usize,
    cpu_usage_bits: u32,
    used_memory: u64,
    traffic: (u64, u64),
    timestamp: String,
) -> bool {
    &&& exists|record: LocalHostMonitorRecord| #[trigger]
        is_host_record(record, id, cpu_usage_bits, used_memory, traffic, timestamp)
            && after.performance_records@ == replaced(
            before.performance_records@,
            MonitorRecord::LocalHost(record),
        )
    &&& after == (MonitorTarget { performance_records: after.performance_records, ..before })
}

/// The watch over the local machine. It keeps to the interface that was the main
/// one when it began.
#[derive(Debug)]
pub struct HostMonitor {
    pub id: usize,
    pub main_interface_name: String,
}

impl HostMonitor {
    /// Begins to watch the local machine.
    pub fn begin(id: usize, networks: &Vec<NetworkInterface>) -> (res: Self)
        requires
            traffic_fits(networks@),
        ensures
            res.id == id,
            res.main_interface_name@ == main_interface(networks@),
    {
        HostMonitor { id, main_interface_name: get_main_interface_name(networks) }
    }

    /// Takes in a measurement.
    pub fn sampled(
        &self,
        target: &mut MonitorTarget,
        cpu_usage_bits: u32,
        used_memory: u64,
        networks: &Vec<NetworkInterface>,
        timestamp: String,
    )
        ensures
            shows_measurement(
                *old(target),
                *final(target),
                self.id,
                cpu_usage_bits,
                used_memory,
                recent_traffic(networks@, self.main_interface_name@),
                timestamp,
            ),
    {
        let (rx, tx) = interface_traffic(networks, &self.main_interface_name);
        let record = LocalHostMonitorRecord {
            mt_id: self.id,
            cpu_usage_bits,
            memory_usage: format_memory(used_memory),
            disk_usage_bits: 0,
            timestamp,
            download_speed: format_speed(rx),
            upload_speed: format_speed(tx),
            network_saturation: 0,
        };
        assert(is_host_record(record, self.id, cpu_usage_bits, used_memory, (rx, tx), timestamp));
        target.replace_record(MonitorRecord::LocalHost(record));
    }
}

/// Whether `k` is the first interface that counts and is at least as busy as
/// every other that counts.
pub open spec fn leads(nets: Seq<NetworkInterface>, k: int) -> bool {
    &&& 0 <= k < nets.len()
    &&& !ignored_interface(nets[k].name@)
    &&& forall|j: int|
        0 <= j < nets.len() && !ignored_interface((#[trigger] nets[j]).name@) ==> if j < k {
            traffic(nets[j]) < traffic(nets[k])
        } else {
            traffic(nets[j]) <= traffic(nets[k])
        }
}

proof fn lemma_busiest_leads(nets: Seq<NetworkInterface>)
    requires
        forall|i: int| 0 <= i < nets.len() ==> (#[trigger] nets[i]).name@.len() > 0,
    ensures
        busiest(nets).0.len() == 0 ==> forall|i: int|
            0 <= i < nets.len() ==> ignored_interface((#[trigger] nets[i]).name@),
        busiest(nets).0.len() > 0 ==> exists|k: int|
            leads(nets, k) && busiest(nets) == (nets[k].name@, traffic(nets[k])),
    decreases nets.len(),
{
    if nets.len() > 0 {
        let before = nets.drop_last();
        lemma_busiest_leads(before);
        let (name, most) = busiest(before);
        let net = nets.last();
        let last = nets.len() - 1;
        assert(nets[last].name@.len() > 0);
        assert forall|i: int| 0 <= i < last implies before[i] == nets[i] by {}
        if name.len() > 0 {
            let k = choose|k: int| leads(before, k) && busiest(before) == (
                before[k].name@,
                traffic(before[k]),
            );
            if ignored_interface(net.name@) || traffic(net) <= most {
                assert(leads(nets, k)) by {
                    assert forall|j: int|
                        0 <= j < nets.len() && !ignored_interface(
                            (#[trigger] nets[j]).name@,
                        ) implies if j < k {
                        traffic(nets[j]) < traffic(nets[k])
                    } else {
                        traffic(nets[j]) <= traffic(nets[k])
                    } by {
                        if j < last {
                            assert(before[j] == nets[j]);
                        }
                    }
                }
            } else {
                assert(leads(nets, last)) by {
                    assert forall|j: int|
                        0 <= j < nets.len() && !ignored_interface(
                            (#[trigger] nets[j]).name@,
                        ) implies if j < last {
                        traffic(nets[j]) < traffic(nets[last])
                    } else {
                        traffic(nets[j]) <= traffic(nets[last])
                    } by {
                        if j < last {
                            assert(before[j] == nets[j]);
                        }
                    }
                }
            }
        } else {
            assert forall|i: int| 0 <= i < last implies ignored_interface(
                (#[trigger] nets[i]).name@,
            ) by {
                assert(ignored_interface(before[i].name@));
            }
            if !ignored_interface(net.name@) {
                assert(leads(nets, last));
            }
        }
    }
}

/// Where all interfaces have names and one of them counts, the main interface
/// is the first of the busiest among those that count.
pub proof fn law_main_interface_is_busiest(nets: Seq<NetworkInterface>, some: int)
    requires
        forall|i: int| 0 <= i < nets.len() ==> (#[trigger] nets[i]).name@.len() > 0,
        0 <= some < nets.len(),
        !ignored_interface(nets[some].name@),
    ensures
        exists|k: int| #[trigger] leads(nets, k) && main_interface(nets) == nets[k].name@,
{
    lemma_busiest_leads(nets);
    assert(ignored_interface(nets[some].name@) == false);
}

/// The text of a speed is in the largest unit that it reaches, and is the nearest
/// one with as many decimals as the unit has: none up to KB/s, one from MB/s on. A
/// speed that is too large for a floating point number is off by one part in 2^53
/// at most.
pub proof fn law_speed_text_is_nearest(bytes: nat)
    ensures
        bytes < 1024 ==> speed_text(bytes) == decimal(bytes) + " B/s"@,
        1024 <= bytes < 1024 * 1024 ==> exists|n: nat|
            speed_text(bytes) == #[trigger] decimal(n) + " KB/s"@ && 2 * apart(
                n as int * 1024,
                bytes as int,
            ) <= 1024,
        1024 * 1024 <= bytes < 1024 * 1024 * 1024 ==> exists|n: nat|
            speed_text(bytes) == #[trigger] with_one_decimal(n) + " MB/s"@ && 2 * apart(
                n as int * (1024 * 1024),
                10 * bytes as int,
            ) <= 1024 * 1024,
        1024 * 1024 * 1024 <= bytes ==> exists|n: nat|
            speed_text(bytes) == #[trigger] with_one_decimal(n) + " GB/s"@ && apart(
                n as int * (1024 * 1024 * 1024),
                10 * bytes as int,
            ) * 0x40_0000_0000_0000 <= 0x20_0000_0000_0000 * (1024 * 1024 * 1024) + 20 * bytes,
{
    let speed = as_binary64(bytes);
    law_binary64_is_near(bytes);
    if bytes < 1024 {
    } else if bytes < 1024 * 1024 {
        law_whole_text_is_nearest(speed, 1024);
        let n = choose|n: nat|
            whole_text(speed, 1024) == #[trigger] decimal(n) && 2 * apart(
                (n * 1024) as int,
                speed as int,
            ) <= 1024;
        assert(speed_text(bytes) == decimal(n) + " KB/s"@);
    } else {
        assert(speed >= 1024 * 1024);
        let q: nat = if bytes < 1024 * 1024 * 1024 {
            1024 * 1024
        } else {
            1024 * 1024 * 1024
        };
        law_tenths_text_is_nearest(speed, q);
        let n = choose|n: nat|
            tenths_text(speed, q) == #[trigger] with_one_decimal(n) && 2 * apart(
                (n * q) as int,
                (10 * speed) as int,
            ) <= q;
        assert(bytes >= 1024 * 1024 * 1024 ==> speed >= 1024 * 1024 * 1024);
        assert(speed_text(bytes) == with_one_decimal(n) + if bytes < 1024 * 1024 * 1024 {
            " MB/s"@
        } else {
            " GB/s"@
        });
    }
}

/// The text of an amount of memory is the nearest one in GiB with one decimal, and
/// off by one part in 2^24 at most because it is computed with 32 bits.
pub proof fn law_memory_text_is_nearest(bytes: nat)
    ensures
        exists|n: nat|
            memory_text(bytes) == #[trigger] with_one_decimal(n) && apart(
                n as int * (1024 * 1024 * 1024),
                10 * bytes as int,
            ) * 0x200_0000 <= 0x100_0000 * (1024 * 1024 * 1024) + 20 * bytes,
{
    let held = as_binary32(bytes);
    law_binary32_is_near(bytes);
    law_tenths_text_is_nearest(held, 1024 * 1024 * 1024);
}

/// An interface does not count exactly if its name has one of seven beginnings.
pub proof fn law_interfaces_are_ignored_by_their_beginnings(name: Seq<char>)
    ensures
        ignored_interface(name) <==> ("lo"@.is_prefix_of(name) || "docker"@.is_prefix_of(name)
            || "veth"@.is_prefix_of(name) || "br-"@.is_prefix_of(name) || "tun"@.is_prefix_of(name)
            || "virbr"@.is_prefix_of(name) || "VMware"@.is_prefix_of(name)),
{
    assert forall|prefix: Seq<char>| #[trigger] prefix.is_prefix_of(name) == has_prefix(
        name,
        prefix,
    ) by {
        assert(prefix.is_prefix_of(name) <==> prefix.len() <= name.len() && prefix
            =~= name.subrange(0, prefix.len() as int));
    }
}

/// An interface counts if its name starts with none of the letters that the names
/// of virtual ones start with.
pub proof fn law_ordinary_interfaces_count(name: Seq<char>)
    requires
        name.len() == 0 || !seq!['l', 'd', 'v', 'b', 't', 'V'].contains(name[0]),
    ensures
        !ignored_interface(name),
{
    reveal_strlit("lo");
    reveal_strlit("docker");
    reveal_strlit("veth");
    reveal_strlit("br-");
    reveal_strlit("tun");
    reveal_strlit("virbr");
    reveal_strlit("VMware");
    let letters = seq!['l', 'd', 'v', 'b', 't', 'V'];
    assert(letters[0] == 'l' && letters[1] == 'd' && letters[2] == 'v' && letters[3] == 'b'
        && letters[4] == 't' && letters[5] == 'V');
    if name.len() > 0 {
        assert forall|prefix: Seq<char>|
            prefix.len() > 0 && #[trigger] has_prefix(name, prefix) implies prefix[0] == name[0] by {
            assert(name.take(prefix.len() as int)[0] == name[0]);
        }
    }
}

/// No interface that counts has more traffic than the main one, received and sent
/// together, and none before it has as much.
pub proof fn law_main_interface_has_most_traffic(nets: Seq<NetworkInterface>, some: int)
    requires
        forall|i: int| 0 <= i < nets.len() ==> (#[trigger] nets[i]).name@.len() > 0,
        0 <= some < nets.len(),
        !ignored_interface(nets[some].name@),
    ensures
        exists|k: int|
            0 <= k < nets.len() && (#[trigger] nets[k]).name@ == main_interface(nets)
                && !ignored_interface(nets[k].name@) && forall|j: int|
                0 <= j < nets.len() && !ignored_interface((#[trigger] nets[j]).name@)
                    ==> nets[j].total_received + nets[j].total_transmitted
                    <= nets[k].total_received + nets[k].total_transmitted && (j < k
                    ==> nets[j].total_received + nets[j].total_transmitted
                    < nets[k].total_received + nets[k].total_transmitted),
{
    law_main_interface_is_busiest(nets, some);
    let k = choose|k: int| #[trigger] leads(nets, k) && main_interface(nets) == nets[k].name@;
    assert(nets[k].name@ == main_interface(nets));
    assert forall|j: int| 0 <= j < nets.len() implies traffic(#[trigger] nets[j])
        == nets[j].total_received + nets[j].total_transmitted by {}
}

/// Where no interface counts the main one is the first, and where there is none at
/// all it is not known.
pub proof fn law_first_interface_stands_in(nets: Seq<NetworkInterface>)
    requires
        forall|i: int| 0 <= i < nets.len() ==> ignored_interface((#[trigger] nets[i]).name@),
    ensures
        nets.len() > 0 ==> main_interface(nets) == nets[0].name@,
        nets.len() == 0 ==> main_interface(nets) == "unknown"@,
    decreases nets.len(),
{
    lemma_nothing_counts(nets);
}

proof fn lemma_nothing_counts(nets: Seq<NetworkInterface>)
    requires
        forall|i: int| 0 <= i < nets.len() ==> ignored_interface((#[trigger] nets[i]).name@),
    ensures
        busiest(nets).0.len() == 0,
    decreases nets.len(),
{
    if nets.len() > 0 {
        let before = nets.drop_last();
        assert(ignored_interface(nets[nets.len() - 1].name@));
        assert forall|i: int| 0 <= i < before.len() implies ignored_interface(
            (#[trigger] before[i]).name@,
        ) by {
            assert(before[i] == nets[i]);
        }
        lemma_nothing_counts(before);
    }
}

/// The traffic since the last look is that of the first interface with the name,
/// whatever the others have, and none if there is no such interface.
pub proof fn law_recent_traffic_is_that_of_the_interface(
    nets: Seq<NetworkInterface>,
    name: Seq<char>,
    k: int,
)
    requires
        0 <= k <= nets.len(),
        forall|i: int| 0 <= i < k ==> (#[trigger] nets[i]).name@ != name,
        k < nets.len() ==> nets[k].name@ == name,
    ensures
        k < nets.len() ==> recent_traffic(nets, name) == (nets[k].received, nets[k].transmitted),
        k == nets.len() ==> recent_traffic(nets, name) == (0u64, 0u64),
    decreases nets.len(),
{
    if k > 0 {
        let rest = nets.skip(1);
        assert(nets[0].name@ != name);
        assert forall|i: int| 0 <= i < k - 1 implies (#[trigger] rest[i]).name@ != name by {
            assert(rest[i] == nets[i + 1]);
        }
        law_recent_traffic_is_that_of_the_interface(rest, name, k - 1);
    }
}

/// A record of the local machine shows the load as it was measured, the used
/// memory, what was received as the download and what was sent as the upload.
pub proof fn law_host_record_shows_the_measurement(
    record: LocalHostMonitorRecord,
    id: usize,
    cpu_usage_bits: u32,
    used_memory: u64,
    received: u64,
    transmitted: u64,
    timestamp: String,
)
    requires
        is_host_record(
            record,
            id,
            cpu_usage_bits,
            used_memory,
            (received, transmitted),
            timestamp,
        ),
    ensures
        record.mt_id == id,
        record.cpu_usage_bits == cpu_usage_bits,
        record.memory_usage@ == memory_text(used_memory as nat),
        record.download_speed@ == speed_text(received as nat),
        record.upload_speed@ == speed_text(transmitted as nat),
        record.disk_usage_bits == 0,
        record.network_saturation == 0,
        record.timestamp@ == timestamp@,
{
}

/// The latest record of the local machine shows the measurement: the load as it was
/// measured, the used memory, what was received as the download and what was sent as
/// the upload.
pub proof fn law_measurement_is_the_latest_record(
    before: MonitorTarget,
    after: MonitorTarget,
    id: usize,
    cpu_usage_bits: u32,
    used_memory: u64,
    received: u64,
    transmitted: u64,
    timestamp: String,
)
    requires
        shows_measurement(
            before,
            after,
            id,
            cpu_usage_bits,
            used_memory,
            (received, transmitted),
            timestamp,
        ),
    ensures
        after.performance_records@.len() > 0,
        after.performance_records@[0] matches MonitorRecord::LocalHost(shown) && {
            &&& shown.mt_id == id
            &&& shown.cpu_usage_bits == cpu_usage_bits
            &&& shown.memory_usage@ == memory_text(used_memory as nat)
            &&& shown.download_speed@ == speed_text(received as nat)
            &&& shown.upload_speed@ == speed_text(transmitted as nat)
            &&& shown.timestamp@ == timestamp@
        },
        after == (MonitorTarget { performance_records: after.performance_records, ..before }),
{
}

/// The main interface can be told whenever the traffic of each interface that counts
/// has 64 bits.
pub proof fn law_main_interface_can_be_told(nets: Seq<NetworkInterface>)
    ensures
        traffic_fits(nets) <==> forall|i: int|
            0 <= i < nets.len() && !ignored_interface((#[trigger] nets[i]).name@)
                ==> nets[i].total_received + nets[i].total_transmitted <= u64::MAX,
{
}

} // verus!
