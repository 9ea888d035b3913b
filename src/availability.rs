use vstd::prelude::*;

use crate::devices::strictly_ascending;
use crate::error::{decimal_string, decimal_text, KnockError};
use nvml_wrapper::Nvml;

verus! {

/// Utilization, in percent, at or above which a device counts as busy.
pub const UTILIZATION_CEILING_PERCENT: u32 = 20;

/// Memory use, in MiB, below which a device counts as idle unless configured otherwise.
pub const DEFAULT_MEMORY_BORDER_MIB: u64 = 300;

/// One device's reading at the time of the check.
#[derive(Debug, Clone, Copy, PartialEq, Eq)]
pub struct GPUStatus {
    pub id: u32,
    pub used_memory: u64,
    pub gpu_utilization: u32,
    pub memory_utilization: u32,
    pub is_vacant: bool,
}

/// A verdict over a set of devices.
///
/// `Vacant` carries the devices chosen for the run; `Occupied` carries every
/// device that was checked, so that the caller sees which ones were busy.
#[derive(Debug, Clone)]
pub enum GPUAvailability<T> {
    Vacant(T),
    Occupied(T),
}

/// A reading is vacant when memory use is under the border and both
/// utilizations are under the ceiling.
pub open spec fn reading_is_vacant(
    used_memory: u64,
    gpu_utilization: u32,
    memory_utilization: u32,
    memory_border_bytes: u64,
) -> bool {
    &&& used_memory < memory_border_bytes
    &&& gpu_utilization < UTILIZATION_CEILING_PERCENT
    &&& memory_utilization < UTILIZATION_CEILING_PERCENT
}

/// The status was classified against `memory_border_bytes`.
pub open spec fn classified(s: GPUStatus, memory_border_bytes: u64) -> bool {
    s.is_vacant == reading_is_vacant(
        s.used_memory,
        s.gpu_utilization,
        s.memory_utilization,
        memory_border_bytes,
    )
}

/// Builds the status of one device from its reading.
pub fn classify(
    id: u32,
    used_memory: u64,
    gpu_utilization: u32,
    memory_utilization: u32,
    memory_border_bytes: u64,
) -> (r: GPUStatus)
    ensures
        r.id == id,
        r.used_memory == used_memory,
        r.gpu_utilization == gpu_utilization,
        r.memory_utilization == memory_utilization,
        r.is_vacant == reading_is_vacant(
            used_memory,
            gpu_utilization,
            memory_utilization,
            memory_border_bytes,
        ),
{
    let is_vacant = used_memory < memory_border_bytes && gpu_utilization
        < UTILIZATION_CEILING_PERCENT && memory_utilization < UTILIZATION_CEILING_PERCENT;
    GPUStatus { id, used_memory, gpu_utilization, memory_utilization, is_vacant }
}

/// Every device of `s` is vacant.
pub open spec fn all_vacant(s: Seq<GPUStatus>) -> bool {
    forall|i: int| 0 <= i < s.len() ==> (#[trigger] s[i]).is_vacant
}

/// The vacant devices of `s`, in the order of `s`.
pub open spec fn vacant_of(s: Seq<GPUStatus>) -> Seq<GPUStatus>
    decreases s.len(),
{
    if s.len() == 0 {
        Seq::empty()
    } else if s.last().is_vacant {
        vacant_of(s.drop_last()).push(s.last())
    } else {
        vacant_of(s.drop_last())
    }
}

/// The verdict of the all-or-nothing policy: vacant only if every device is.
/// With no devices at all the verdict is vacant with an empty selection,
/// which the caller may take as running without a GPU.
pub fn check_all(statuses: Vec<GPUStatus>) -> (r: GPUAvailability<Vec<GPUStatus>>)
    ensures
        all_vacant(statuses@) ==> r == GPUAvailability::Vacant(statuses),
        !all_vacant(statuses@) ==> r == GPUAvailability::Occupied(statuses),
{
    if statuses.len() == 0 {
        return GPUAvailability::Vacant(statuses);
    }
    let mut i: usize = 0;
    while i < statuses.len()
        invariant
            i <= statuses@.len(),
            forall|j: int| 0 <= j < i ==> (#[trigger] statuses@[j]).is_vacant,
        decreases statuses@.len() - i,
    {
        if !statuses[i].is_vacant {
            return GPUAvailability::Occupied(statuses);
        }
        i = i + 1;
    }
    GPUAvailability::Vacant(statuses)
}

/// The statuses are in ascending order of device id.
pub open spec fn ids_ascending(s: Seq<GPUStatus>) -> bool {
    forall|i: int, j: int| 0 <= i < j < s.len() ==> s[i].id < s[j].id
}

/// Every vacant device of `statuses` that was not selected has a higher id
/// than every selected one.
pub open spec fn prefers_lower_ids(selected: Seq<GPUStatus>, statuses: Seq<GPUStatus>) -> bool {
    forall|i: int, k: int|
        0 <= i < selected.len() && 0 <= k < statuses.len() && (#[trigger] statuses[k]).is_vacant
            && !selected.contains(statuses[k]) ==> (#[trigger] selected[i]).id < statuses[k].id
}

proof fn lemma_vacant_of_items(s: Seq<GPUStatus>)
    ensures
        forall|x: GPUStatus| #[trigger] vacant_of(s).contains(x) ==> s.contains(x),
        forall|k: int| 0 <= k < s.len() && (#[trigger] s[k]).is_vacant ==> vacant_of(s).contains(s[k]),
        ids_ascending(s) ==> ids_ascending(vacant_of(s)),
    decreases s.len(),
{
    if s.len() > 0 {
        let p = s.drop_last();
        lemma_vacant_of_items(p);
        let vp = vacant_of(p);
        assert forall|x: GPUStatus| #[trigger] vacant_of(s).contains(x) implies s.contains(x) by {
            let m = choose|m: int| 0 <= m < vacant_of(s).len() && vacant_of(s)[m] == x;
            if m < vp.len() {
                assert(vp[m] == x);
                assert(vp.contains(x));
                let j = choose|j: int| 0 <= j < p.len() && p[j] == x;
                assert(s[j] == x);
            } else {
                assert(s[s.len() - 1] == x);
            }
        }
        assert forall|k: int| 0 <= k < s.len() && (#[trigger] s[k]).is_vacant implies vacant_of(
            s,
        ).contains(s[k]) by {
            if k < p.len() {
                assert(p[k] == s[k]);
                assert(vp.contains(s[k]));
                let m = choose|m: int| 0 <= m < vp.len() && vp[m] == s[k];
                if s.last().is_vacant {
                    assert(vacant_of(s)[m] == s[k]);
                }
            } else {
                assert(vacant_of(s)[vp.len() as int] == s[k]);
            }
        }
        if ids_ascending(s) && s.last().is_vacant {
            assert forall|i: int, j: int| 0 <= i < j < vacant_of(s).len() implies vacant_of(s)[i].id
                < vacant_of(s)[j].id by {
                if j == vp.len() {
                    assert(vp.contains(vp[i]));
                    let a = choose|a: int| 0 <= a < p.len() && p[a] == vp[i];
                    assert(s[a] == vp[i]);
                }
            }
        }
    }
}

/// The selection policy prefers lower ids: when the statuses come in
/// ascending order of id, every vacant device left out of the selection has
/// a higher id than every device in it.
pub proof fn lemma_selection_prefers_lower_ids(statuses: Seq<GPUStatus>, n: int)
    requires
        ids_ascending(statuses),
        0 <= n <= vacant_of(statuses).len(),
    ensures
        prefers_lower_ids(vacant_of(statuses).take(n), statuses),
{
    let v = vacant_of(statuses);
    lemma_vacant_of_items(statuses);
    assert forall|i: int, k: int|
        0 <= i < v.take(n).len() && 0 <= k < statuses.len() && (#[trigger] statuses[k]).is_vacant
            && !v.take(n).contains(statuses[k]) implies (#[trigger] v.take(n)[i]).id
        < statuses[k].id by {
        assert(v.contains(statuses[k]));
        let m = choose|m: int| 0 <= m < v.len() && v[m] == statuses[k];
        if m < n {
            assert(v.take(n)[m] == statuses[k]);
        }
        assert(v.take(n)[i] == v[i]);
    }
}

/// The verdict of the selection policy: the first `n` vacant devices, in the
/// order checked, when there are that many; every status otherwise. When the
/// statuses come in ascending order of id, the lowest vacant ids are chosen.
pub fn check_n(statuses: Vec<GPUStatus>, n: usize) -> (r: GPUAvailability<Vec<GPUStatus>>)
    ensures
        vacant_of(statuses@).len() >= n ==> (r matches GPUAvailability::Vacant(v) && v@
            == vacant_of(statuses@).take(n as int)),
        vacant_of(statuses@).len() < n ==> r == GPUAvailability::Occupied(statuses),
        ids_ascending(statuses@) ==> (r matches GPUAvailability::Vacant(v) ==> prefers_lower_ids(
            v@,
            statuses@,
        )),
{
    let mut selected: Vec<GPUStatus> = Vec::new();
    let mut i: usize = 0;
    while i < statuses.len()
        invariant
            i <= statuses@.len(),
            selected@ == vacant_of(statuses@.subrange(0, i as int)),
        decreases statuses@.len() - i,
    {
        let s = statuses[i];
        if s.is_vacant {
            selected.push(s);
        }
        proof {
            assert(statuses@.subrange(0, i + 1).drop_last() =~= statuses@.subrange(0, i as int));
        }
        i = i + 1;
    }
    assert(statuses@.subrange(0, i as int) =~= statuses@);
    if selected.len() >= n {
        selected.truncate(n);
        proof {
            if ids_ascending(statuses@) {
                lemma_selection_prefers_lower_ids(statuses@, n as int);
            }
        }
        GPUAvailability::Vacant(selected)
    } else {
        GPUAvailability::Occupied(statuses)
    }
}

/// The verdict for `statuses` under the policy that `num_requested` names:
/// select that many devices, or require all of them when it is `None`.
pub open spec fn verdict_for(statuses: Seq<GPUStatus>, num_requested: Option<usize>) -> (bool, Seq<GPUStatus>) {
    match num_requested {
        Some(n) => if vacant_of(statuses).len() >= n {
            (true, vacant_of(statuses).take(n as int))
        } else {
            (false, statuses)
        },
        None => (all_vacant(statuses), statuses),
    }
}

/// The verdict `r` is the one that `verdict_for` gives.
pub open spec fn is_verdict(r: GPUAvailability<Vec<GPUStatus>>, statuses: Seq<GPUStatus>, num_requested: Option<usize>) -> bool {
    match r {
        GPUAvailability::Vacant(v) => verdict_for(statuses, num_requested) == (true, v@),
        GPUAvailability::Occupied(v) => verdict_for(statuses, num_requested) == (false, v@),
    }
}

/// Reaches the verdict for `statuses` under either policy.
pub fn decide_availability(statuses: Vec<GPUStatus>, num_requested: Option<usize>) -> (r: GPUAvailability<Vec<GPUStatus>>)
    ensures
        is_verdict(r, statuses@, num_requested),
{
    match num_requested {
        Some(n) => check_n(statuses, n),
        None => check_all(statuses),
    }
}

/// Fails when more devices are requested for selection than are checked.
pub fn validate_num_requested(num_requested: usize, devices: &Vec<u32>) -> (r: Result<(), KnockError>)
    ensures
        r is Err <==> num_requested > devices@.len(),
        r matches Err(e) ==> e == (KnockError::TooManyRequested {
            requested: num_requested,
            visible: devices@.len() as usize,
        }),
{
    if num_requested > devices.len() {
        return Err(KnockError::TooManyRequested { requested: num_requested, visible: devices.len() });
    }
    Ok(())
}


/// `statuses` holds one reading for each of `devices`, in the same order,
/// each classified against `memory_border_bytes`.
pub open spec fn readings_of(statuses: Seq<GPUStatus>, devices: Seq<u32>, memory_border_bytes: u64) -> bool {
    &&& statuses.len() == devices.len()
    &&& forall|k: int|
        0 <= k < statuses.len() ==> (#[trigger] statuses[k]).id == devices[k] && classified(
            statuses[k],
            memory_border_bytes,
        )
}

/// Reads the telemetry of every device in `devices`. The first device whose
/// reading fails stops the whole read.
fn read_statuses(nvml: &Nvml, devices: &Vec<u32>, memory_border_bytes: u64) -> (r: Result<
    Vec<GPUStatus>,
    KnockError,
>)
    ensures
        r matches Ok(v) ==> readings_of(v@, devices@, memory_border_bytes),
        r matches Err(e) ==> exists|k: int|
            0 <= k < devices@.len() && e == KnockError::TelemetryQuery(#[trigger] devices@[k]),
{
    let mut statuses: Vec<GPUStatus> = Vec::new();
    let mut i: usize = 0;
    while i < devices.len()
        invariant
            i <= devices@.len(),
            readings_of(statuses@, devices@.subrange(0, i as int), memory_border_bytes),
        decreases devices@.len() - i,
    {
        let id = devices[i];
        let device = match nvml.device_by_index(id) {
            Ok(device) => device,
            Err(_) => return Err(KnockError::TelemetryQuery(id)),
        };
        let utilization = match device.utilization_rates() {
            Ok(utilization) => utilization,
            Err(_) => return Err(KnockError::TelemetryQuery(id)),
        };
        let memory = match device.memory_info() {
            Ok(memory) => memory,
            Err(_) => return Err(KnockError::TelemetryQuery(id)),
        };
        let status = classify(
            id,
            memory.used,
            utilization.gpu,
            utilization.memory,
            memory_border_bytes,
        );
        statuses.push(status);
        i = i + 1;
    }
    assert(devices@.subrange(0, i as int) =~= devices@);
    Ok(statuses)
}

/// Checks `devices` and reaches a verdict.
///
/// With `num_requested` set, that many vacant devices are selected; without
/// it, every device must be vacant. A request for more devices than are
/// checked is refused before any telemetry is read. A device whose telemetry
/// cannot be read stops the check with an error naming it.
pub fn get_gpu_availability(
    devices: &Vec<u32>,
    memory_border_bytes: u64,
    num_requested: Option<usize>,
) -> (r: Result<GPUAvailability<Vec<GPUStatus>>, KnockError>)
    ensures
        num_requested is Some && num_requested->0 > devices@.len() ==> r == Err::<
            GPUAvailability<Vec<GPUStatus>>,
            KnockError,
        >(
            KnockError::TooManyRequested {
                requested: num_requested->0,
                visible: devices@.len() as usize,
            },
        ),
        devices@.len() == 0 && (num_requested is None || num_requested == Some(0usize)) ==> (r matches Ok(
            GPUAvailability::Vacant(v),
        ) && v@.len() == 0),
        r matches Ok(v) ==> exists|statuses: Seq<GPUStatus>|
            readings_of(statuses, devices@, memory_border_bytes) && is_verdict(
                v,
                statuses,
                num_requested,
            ),
        num_requested is Some && strictly_ascending(devices@) ==> (r matches Ok(
            GPUAvailability::Vacant(v),
        ) ==> exists|statuses: Seq<GPUStatus>|
            readings_of(statuses, devices@, memory_border_bytes) && prefers_lower_ids(v@, statuses)),
        r matches Err(e) ==> match e {
            KnockError::TooManyRequested { requested, visible } => num_requested == Some(requested)
                && requested > devices@.len() && visible == devices@.len(),
            KnockError::TelemetrySource => true,
            KnockError::TelemetryQuery(id) => devices@.contains(id),
            _ => false,
        },
{
    if let Some(n) = num_requested {
        match validate_num_requested(n, devices) {
            Err(e) => return Err(e),
            Ok(()) => {},
        }
    }
    if devices.len() == 0 {
        // No devices to check: the explicit zero-device verdict, vacant with
        // an empty selection, without starting the telemetry source.
        let none: Vec<GPUStatus> = Vec::new();
        assert(readings_of(none@, devices@, memory_border_bytes));
        assert(vacant_of(none@) =~= Seq::<GPUStatus>::empty());
        assert(none@.take(0) =~= none@);
        assert(is_verdict(GPUAvailability::Vacant(none), none@, num_requested));
        assert(prefers_lower_ids(none@, none@));
        return Ok(GPUAvailability::Vacant(none));
    }
    let nvml = match Nvml::init() {
        Ok(nvml) => nvml,
        Err(_) => return Err(KnockError::TelemetrySource),
    };
    match read_statuses(&nvml, devices, memory_border_bytes) {
        Err(e) => Err(e),
        Ok(statuses) => {
            let ghost st = statuses@;
            let verdict = decide_availability(statuses, num_requested);
            assert(readings_of(st, devices@, memory_border_bytes) && is_verdict(verdict, st, num_requested));
            proof {
                if strictly_ascending(devices@) {
                    assert(ids_ascending(st));
                }
                if num_requested is Some && strictly_ascending(devices@) && verdict is Vacant {
                    let n = num_requested->0;
                    lemma_selection_prefers_lower_ids(st, n as int);
                    assert(prefers_lower_ids(verdict->Vacant_0@, st));
                }
            }
            Ok(verdict)
        },
    }
}


/// The verdict when the telemetry source cannot be started. A run that
/// requires a GPU fails; any other falls back to the CPU, which is the
/// vacant verdict with no devices selected.
pub fn cpu_fallback(use_gpu_strictly: bool) -> (r: Result<GPUAvailability<Vec<GPUStatus>>, KnockError>)
    ensures
        use_gpu_strictly ==> r == Err::<GPUAvailability<Vec<GPUStatus>>, KnockError>(
            KnockError::GpuRequired,
        ),
        !use_gpu_strictly ==> (r matches Ok(GPUAvailability::Vacant(v)) && v@.len() == 0),
{
    if use_gpu_strictly {
        Err(KnockError::GpuRequired)
    } else {
        Ok(GPUAvailability::Vacant(Vec::new()))
    }
}

/// Device ids written as a comma-separated list, the form a visible-device
/// setting takes.
pub open spec fn joined_ids(ids: Seq<u32>) -> Seq<char>
    decreases ids.len(),
{
    if ids.len() == 0 {
        Seq::empty()
    } else if ids.len() == 1 {
        decimal_text(ids[0] as nat)
    } else {
        joined_ids(ids.drop_last()) + ","@ + decimal_text(ids.last() as nat)
    }
}

/// Writes device ids as a comma-separated list.
pub fn ids_to_string(ids: &Vec<u32>) -> (r: String)
    ensures
        r@ == joined_ids(ids@),
{
    let mut out = String::new();
    let mut i: usize = 0;
    while i < ids.len()
        invariant
            i <= ids@.len(),
            out@ == joined_ids(ids@.subrange(0, i as int)),
        decreases ids@.len() - i,
    {
        if i > 0 {
            out.append(",");
        }
        out.append(decimal_string(ids[i] as u64).as_str());
        proof {
            let next = ids@.subrange(0, i + 1);
            assert(next.drop_last() =~= ids@.subrange(0, i as int));
            if i == 0 {
                assert(Seq::<char>::empty() + decimal_text(ids@[0] as nat) =~= decimal_text(
                    ids@[0] as nat,
                ));
            }
        }
        i = i + 1;
    }
    assert(ids@.subrange(0, i as int) =~= ids@);
    out
}

/// The ids of the devices in `s` that are not vacant, in the order of `s`.
pub open spec fn occupied_ids_of(s: Seq<GPUStatus>) -> Seq<u32>
    decreases s.len(),
{
    if s.len() == 0 {
        Seq::empty()
    } else if s.last().is_vacant {
        occupied_ids_of(s.drop_last())
    } else {
        occupied_ids_of(s.drop_last()).push(s.last().id)
    }
}

/// The ids of the devices that are not vacant, in the order checked.
pub fn occupied_ids(statuses: &Vec<GPUStatus>) -> (r: Vec<u32>)
    ensures
        r@ == occupied_ids_of(statuses@),
{
    let mut ids: Vec<u32> = Vec::new();
    let mut i: usize = 0;
    while i < statuses.len()
        invariant
            i <= statuses@.len(),
            ids@ == occupied_ids_of(statuses@.subrange(0, i as int)),
        decreases statuses@.len() - i,
    {
        if !statuses[i].is_vacant {
            ids.push(statuses[i].id);
        }
        proof {
            assert(statuses@.subrange(0, i + 1).drop_last() =~= statuses@.subrange(0, i as int));
        }
        i = i + 1;
    }
    assert(statuses@.subrange(0, i as int) =~= statuses@);
    ids
}

/// The ids of `statuses`, in order.
pub fn status_ids(statuses: &Vec<GPUStatus>) -> (r: Vec<u32>)
    ensures
        r@.len() == statuses@.len(),
        forall|k: int| 0 <= k < r@.len() ==> #[trigger] r@[k] == statuses@[k].id,
{
    let mut ids: Vec<u32> = Vec::new();
    let mut i: usize = 0;
    while i < statuses.len()
        invariant
            i <= statuses@.len(),
            ids@.len() == i,
            forall|k: int| 0 <= k < i ==> #[trigger] ids@[k] == statuses@[k].id,
        decreases statuses@.len() - i,
    {
        ids.push(statuses[i].id);
        i = i + 1;
    }
    ids
}


/// Marking any one device of a vacant set as busy makes the set occupied.
pub proof fn lemma_one_busy_device_occupies(statuses: Seq<GPUStatus>, k: int, busy: GPUStatus)
    requires
        0 <= k < statuses.len(),
        !busy.is_vacant,
    ensures
        !all_vacant(statuses.update(k, busy)),
{
    assert(statuses.update(k, busy)[k] == busy);
}

proof fn lemma_occupied_ids_of_contains(s: Seq<GPUStatus>, id: u32)
    ensures
        occupied_ids_of(s).contains(id) <==> exists|k: int|
            0 <= k < s.len() && !(#[trigger] s[k]).is_vacant && s[k].id == id,
    decreases s.len(),
{
    if s.len() > 0 {
        let p = s.drop_last();
        lemma_occupied_ids_of_contains(p, id);
        if exists|k: int| 0 <= k < p.len() && !(#[trigger] p[k]).is_vacant && p[k].id == id {
            let k = choose|k: int| 0 <= k < p.len() && !(#[trigger] p[k]).is_vacant && p[k].id == id;
            assert(s[k] == p[k]);
        }
        if exists|k: int| 0 <= k < s.len() && !(#[trigger] s[k]).is_vacant && s[k].id == id {
            let k = choose|k: int| 0 <= k < s.len() && !(#[trigger] s[k]).is_vacant && s[k].id == id;
            if k < p.len() {
                assert(s[k] == p[k]);
            }
        }
        let o = occupied_ids_of(p);
        if !s.last().is_vacant {
            assert(occupied_ids_of(s) == o.push(s.last().id));
            assert(o.push(s.last().id)[o.len() as int] == s.last().id);
            if o.push(s.last().id).contains(id) && id != s.last().id {
                let m = choose|m: int| 0 <= m < o.len() + 1 && o.push(s.last().id)[m] == id;
                assert(o[m] == id);
            }
            if o.contains(id) {
                let m = choose|m: int| 0 <= m < o.len() && o[m] == id;
                assert(o.push(s.last().id)[m] == id);
            }
        }
    }
}

/// The all-or-nothing verdict does not depend on the order in which the
/// devices are checked: the same statuses in any order are all vacant or
/// not alike, and name the same occupied devices.
pub proof fn lemma_check_all_ignores_order(s1: Seq<GPUStatus>, s2: Seq<GPUStatus>)
    requires
        s1.to_multiset() == s2.to_multiset(),
    ensures
        all_vacant(s1) == all_vacant(s2),
        forall|id: u32| occupied_ids_of(s1).contains(id) <==> occupied_ids_of(s2).contains(id),
{
    assert forall|x: GPUStatus| s1.contains(x) <==> s2.contains(x) by {
        vstd::seq_lib::to_multiset_contains(s1, x);
        vstd::seq_lib::to_multiset_contains(s2, x);
    }
    if !all_vacant(s1) {
        let k = choose|k: int| 0 <= k < s1.len() && !(#[trigger] s1[k]).is_vacant;
        assert(s1.contains(s1[k]));
        let m = choose|m: int| 0 <= m < s2.len() && s2[m] == s1[k];
    }
    if !all_vacant(s2) {
        let k = choose|k: int| 0 <= k < s2.len() && !(#[trigger] s2[k]).is_vacant;
        assert(s2.contains(s2[k]));
        let m = choose|m: int| 0 <= m < s1.len() && s1[m] == s2[k];
    }
    assert forall|id: u32| occupied_ids_of(s1).contains(id) <==> occupied_ids_of(s2).contains(id) by {
        lemma_occupied_ids_of_contains(s1, id);
        lemma_occupied_ids_of_contains(s2, id);
        if occupied_ids_of(s1).contains(id) {
            let k = choose|k: int| 0 <= k < s1.len() && !(#[trigger] s1[k]).is_vacant && s1[k].id == id;
            assert(s1.contains(s1[k]));
            let m = choose|m: int| 0 <= m < s2.len() && s2[m] == s1[k];
            assert(!s2[m].is_vacant && s2[m].id == id);
        }
        if occupied_ids_of(s2).contains(id) {
            let k = choose|k: int| 0 <= k < s2.len() && !(#[trigger] s2[k]).is_vacant && s2[k].id == id;
            assert(s2.contains(s2[k]));
            let m = choose|m: int| 0 <= m < s1.len() && s1[m] == s2[k];
            assert(!s1[m].is_vacant && s1[m].id == id);
        }
    }
}

} // verus!
