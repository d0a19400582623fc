//! The device registry: an in-memory list of device records keyed by serial,
//! refilled by parsing the text table that `adb devices -l` prints.

use vstd::prelude::*;

use crate::device::Device;
use crate::device::DeviceStatus;
use crate::device::DeviceView;
use crate::device::ParseError;
use crate::device::spec_status_of;
use crate::text::find_char;
use crate::text::find_char_str;
use crate::text::find_sub;
use crate::text::find_sub_str;
use crate::text::parse_u16_str;
use crate::text::spec_lines;
use crate::text::spec_parse_u16;
use crate::text::spec_tokens;
use crate::text::split_lines;
use crate::text::str_eq;
use crate::text::tokens_of;

verus! {

/// A registry of the devices adb currently knows, keyed by serial.
pub struct AdbManager {
    devices: Vec<Device>,
}

/// No two records share a serial.
pub open spec fn distinct_serials(ds: Seq<DeviceView>) -> bool {
    forall|i: int, j: int| 0 <= i < j < ds.len() ==> ds[i].serial != ds[j].serial
}

/// The records of a sequence of devices, element by element.
pub open spec fn views_of(ds: Seq<Device>) -> Seq<DeviceView> {
    ds.map_values(|d: Device| d@)
}

impl AdbManager {
    /// The registry as a sequence of device records, in insertion order.
    pub closed spec fn view(&self) -> Seq<DeviceView> {
        views_of(self.devices@)
    }

    /// The registry never holds two records with the same serial.
    pub open spec fn wf(&self) -> bool {
        distinct_serials(self@)
    }

    /// An empty registry.
    pub fn new() -> (r: AdbManager)
        ensures
            r@ == Seq::<DeviceView>::empty(),
            r.wf(),
    {
        let r = AdbManager { devices: Vec::new() };
        proof {
            assert(r@ =~= Seq::<DeviceView>::empty());
        }
        r
    }

    /// A copy of every record in the registry, in insertion order.
    pub fn devices(&self) -> (r: Vec<Device>)
        ensures
            views_of(r@) == self@,
    {
        let n = self.devices.len();
        let mut r: Vec<Device> = Vec::new();
        let mut i: usize = 0;
        while i < n
            invariant
                n == self.devices@.len(),
                i <= n,
                r@.len() == i,
                forall|j: int| 0 <= j < i ==> (#[trigger] r@[j])@ == self.devices@[j]@,
            decreases n - i,
        {
            let d = &self.devices[i];
            let copy = Device {
                serial: d.serial.clone(),
                status: d.status,
                transport_id: d.transport_id,
            };
            proof {
                assert(copy@ == d@);
            }
            r.push(copy);
            i += 1;
        }
        proof {
            assert(views_of(r@) =~= self@);
        }
        r
    }

    /// Replaces the registry with what `output`, the text printed by
    /// `adb devices -l`, denotes. On a malformed table the registry is left
    /// unchanged and the first offending line's error is returned.
    pub fn resync_from_output(&mut self, output: &str) -> (r: Result<(), ParseError>)
        ensures
            match r {
                Ok(_) => parse_output(output@) == Ok::<Seq<DeviceView>, ParseError>(final(self)@)
                    && final(self).wf(),
                Err(e) => parse_output(output@) == Err::<Seq<DeviceView>, ParseError>(e)
                    && final(self)@ == old(self)@,
            },
    {
        match parse_devices_output(output) {
            Ok(ds) => {
                self.devices = ds;
                Ok(())
            },
            Err(e) => Err(e),
        }
    }

    /// Records a device: replaces the record carrying the same serial, or
    /// appends the device if its serial is new.
    pub fn insert_device(&mut self, d: Device)
        ensures
            has_serial(old(self)@, d@.serial) ==> final(self)@ == old(self)@.update(
                serial_index(old(self)@, d@.serial),
                d@,
            ),
            !has_serial(old(self)@, d@.serial) ==> final(self)@ == old(self)@.push(d@),
            old(self).wf() ==> final(self).wf(),
    {
        let ghost olds = self@;
        let pos = find_serial(&self.devices, d.serial.as_str());
        if pos < self.devices.len() {
            proof {
                assert(olds[pos as int].serial == d@.serial);
            }
            self.devices.remove(pos);
            self.devices.insert(pos, d);
            proof {
                assert(self@ =~= olds.update(pos as int, d@));
                if distinct_serials(olds) {
                    assert forall|p: int, q: int| 0 <= p < q < self@.len() implies self@[p].serial
                        != self@[q].serial by {
                        assert(olds[p].serial != olds[q].serial);
                    }
                }
            }
        } else {
            self.devices.push(d);
            proof {
                assert(self@ =~= olds.push(d@));
                if distinct_serials(olds) {
                    assert forall|p: int, q: int| 0 <= p < q < self@.len() implies self@[p].serial
                        != self@[q].serial by {
                        if q < olds.len() {
                            assert(olds[p].serial != olds[q].serial);
                        } else {
                            assert(self@[q] == d@);
                            assert(olds[p].serial != d@.serial);
                        }
                    }
                }
            }
        }
    }

    /// Forgets the record carrying this serial, if one is present; later
    /// records move up one place. Reports whether a record was removed.
    pub fn remove_device(&mut self, serial: &str) -> (removed: bool)
        ensures
            has_serial(old(self)@, serial@) ==> removed && final(self)@ == old(self)@.remove(
                serial_index(old(self)@, serial@),
            ),
            !has_serial(old(self)@, serial@) ==> !removed && final(self)@ == old(self)@,
            old(self).wf() ==> final(self).wf(),
    {
        let ghost olds = self@;
        let pos = find_serial(&self.devices, serial);
        if pos < self.devices.len() {
            self.devices.remove(pos);
            proof {
                assert(self@ =~= olds.remove(pos as int));
                if distinct_serials(olds) {
                    assert forall|p: int, q: int| 0 <= p < q < self@.len() implies self@[p].serial
                        != self@[q].serial by {
                        let p0 = if p < pos { p } else { p + 1 };
                        let q0 = if q < pos { q } else { q + 1 };
                        assert(self@[p] == olds[p0]);
                        assert(self@[q] == olds[q0]);
                        assert(olds[p0].serial != olds[q0].serial);
                    }
                }
            }
            true
        } else {
            false
        }
    }

    /// Forgets every record.
    pub fn clear_devices(&mut self)
        ensures
            final(self)@ == Seq::<DeviceView>::empty(),
            final(self).wf(),
    {
        self.devices.clear();
        proof {
            assert(self@ =~= Seq::<DeviceView>::empty());
        }
    }
}

/// The header line that precedes the device table in `adb devices -l` output.
pub open spec fn header() -> Seq<char> {
    "List of devices attached\n"@
}

/// Some record in `ds` carries this serial.
pub open spec fn has_serial(ds: Seq<DeviceView>, serial: Seq<char>) -> bool {
    exists|i: int| 0 <= i < ds.len() && (#[trigger] ds[i]).serial == serial
}

/// The record a non-empty device line denotes, or why it is rejected.
/// The fields are the whitespace-separated tokens of the line: the first is
/// the serial, the second the status, and the last carries the transport id
/// after its first `:`.
pub open spec fn parse_line(line: Seq<char>) -> Result<DeviceView, ParseError> {
    let parts = spec_tokens(line);
    if parts.len() == 0 {
        Err(ParseError::MissingSerial)
    } else if parts.len() == 1 {
        Err(ParseError::MissingStatus)
    } else {
        match spec_status_of(parts[1]) {
            None => Err(ParseError::UnknownStatus),
            Some(st) => {
                let last = parts.last();
                let k = find_char(last, ':');
                if k == last.len() {
                    Err(ParseError::MissingTransportId)
                } else {
                    match spec_parse_u16(last.skip(k + 1)) {
                        None => Err(ParseError::InvalidTransportId),
                        Some(t) => Ok(
                            DeviceView { serial: parts[0], status: st, transport_id: Some(t) },
                        ),
                    }
                }
            },
        }
    }
}

/// Folds the device lines into records, in order. Empty lines are skipped;
/// so is a line whose serial is already recorded. The first rejected line
/// rejects the whole table.
pub open spec fn parse_lines(lines: Seq<Seq<char>>, acc: Seq<DeviceView>) -> Result<
    Seq<DeviceView>,
    ParseError,
>
    decreases lines.len(),
{
    if lines.len() == 0 {
        Ok(acc)
    } else {
        let line = lines[0];
        if line.len() == 0 {
            parse_lines(lines.skip(1), acc)
        } else {
            let parts = spec_tokens(line);
            if parts.len() == 0 {
                Err(ParseError::MissingSerial)
            } else if has_serial(acc, parts[0]) {
                parse_lines(lines.skip(1), acc)
            } else {
                match parse_line(line) {
                    Err(e) => Err(e),
                    Ok(dv) => parse_lines(lines.skip(1), acc.push(dv)),
                }
            }
        }
    }
}

/// The device records `adb devices -l` output denotes: everything after the
/// first occurrence of the header, split into lines and folded by
/// `parse_lines`.
pub open spec fn parse_output(s: Seq<char>) -> Result<Seq<DeviceView>, ParseError> {
    match find_sub(s, header()) {
        None => Err(ParseError::MissingHeader),
        Some(i) => parse_lines(spec_lines(s.skip(i + header().len())), Seq::<DeviceView>::empty()),
    }
}

/// A successful parse never yields two records with the same serial: a line
/// whose serial was already recorded is skipped.
pub proof fn lemma_parse_lines_distinct(lines: Seq<Seq<char>>, acc: Seq<DeviceView>)
    requires
        distinct_serials(acc),
    ensures
        parse_lines(lines, acc) matches Ok(ds) ==> distinct_serials(ds),
    decreases lines.len(),
{
    if lines.len() != 0 {
        let line = lines[0];
        if line.len() == 0 {
            lemma_parse_lines_distinct(lines.skip(1), acc);
        } else {
            let parts = spec_tokens(line);
            if parts.len() == 0 {
            } else if has_serial(acc, parts[0]) {
                lemma_parse_lines_distinct(lines.skip(1), acc);
            } else {
                match parse_line(line) {
                    Err(_) => {},
                    Ok(dv) => {
                        assert(dv.serial == parts[0]);
                        assert(distinct_serials(acc.push(dv))) by {
                            assert forall|i: int, j: int| 0 <= i < j < acc.push(dv).len() implies
                                acc.push(dv)[i].serial != acc.push(dv)[j].serial by {
                                if j < acc.len() {
                                    assert(acc.push(dv)[i] == acc[i]);
                                    assert(acc.push(dv)[j] == acc[j]);
                                } else {
                                    assert(acc.push(dv)[i] == acc[i]);
                                    assert(acc.push(dv)[j] == dv);
                                    assert(acc[i].serial != parts[0]);
                                }
                            }
                        }
                        lemma_parse_lines_distinct(lines.skip(1), acc.push(dv));
                    },
                }
            }
        }
    }
}

/// A successful parse of whole output has pairwise distinct serials.
pub proof fn lemma_parse_output_distinct(s: Seq<char>)
    ensures
        parse_output(s) matches Ok(ds) ==> distinct_serials(ds),
{
    if find_sub(s, header()) is Some {
        let i = find_sub(s, header())->Some_0;
        lemma_parse_lines_distinct(spec_lines(s.skip(i + header().len())), Seq::<DeviceView>::empty());
    }
}

/// Parses one non-empty device line whose tokens are already split off.
fn parse_device_line(line: &str, parts: &Vec<String>) -> (r: Result<Device, ParseError>)
    requires
        parts@.map_values(|t: String| t@) == spec_tokens(line@),
        parts@.len() >= 1,
    ensures
        match r {
            Ok(d) => parse_line(line@) == Ok::<DeviceView, ParseError>(d@),
            Err(e) => parse_line(line@) == Err::<DeviceView, ParseError>(e),
        },
{
    proof {
        assert(spec_tokens(line@).len() == parts@.len());
    }
    if parts.len() == 1 {
        return Err(ParseError::MissingStatus);
    }
    proof {
        assert(spec_tokens(line@)[1] == parts@[1]@);
    }
    let status = match DeviceStatus::parse(parts[1].as_str()) {
        Ok(st) => st,
        Err(e) => {
            return Err(e);
        },
    };
    let lastidx = parts.len() - 1;
    proof {
        assert(spec_tokens(line@)[lastidx as int] == parts@[lastidx as int]@);
        assert(spec_tokens(line@).last() == spec_tokens(line@)[lastidx as int]);
    }
    let last = parts[lastidx].as_str();
    let llen = last.unicode_len();
    let k = find_char_str(last, ':');
    if k == llen {
        return Err(ParseError::MissingTransportId);
    }
    let rest = last.substring_char(k + 1, llen);
    proof {
        assert(rest@ =~= last@.skip(k + 1));
    }
    let tid = match parse_u16_str(rest) {
        Some(t) => t,
        None => {
            return Err(ParseError::InvalidTransportId);
        },
    };
    let serial = parts[0].clone();
    let d = Device { serial, status, transport_id: Some(tid) };
    proof {
        assert(spec_tokens(line@)[0] == parts@[0]@);
    }
    Ok(d)
}

/// The position of the first record with this serial, or the length of `ds`.
pub open spec fn serial_index(ds: Seq<DeviceView>, serial: Seq<char>) -> int
    decreases ds.len(),
{
    if ds.len() == 0 {
        0
    } else if ds[0].serial == serial {
        0
    } else {
        1 + serial_index(ds.skip(1), serial)
    }
}

pub proof fn lemma_serial_index_is(ds: Seq<DeviceView>, serial: Seq<char>, i: int)
    requires
        0 <= i <= ds.len(),
        forall|j: int| 0 <= j < i ==> (#[trigger] ds[j]).serial != serial,
        i == ds.len() || ds[i].serial == serial,
    ensures
        serial_index(ds, serial) == i,
    decreases ds.len(),
{
    if ds.len() != 0 && ds[0].serial != serial {
        assert(i != 0);
        lemma_serial_index_is(ds.skip(1), serial, i - 1);
    }
}

/// The index of the first record in `ds` carrying this serial, or `ds.len()`.
fn find_serial(ds: &Vec<Device>, serial: &str) -> (r: usize)
    ensures
        r == serial_index(views_of(ds@), serial@),
        r <= ds@.len(),
        r < ds@.len() ==> has_serial(views_of(ds@), serial@) && ds@[r as int]@.serial
            == serial@,
        r == ds@.len() ==> !has_serial(views_of(ds@), serial@),
{
    let ghost m = views_of(ds@);
    let n = ds.len();
    let mut i: usize = 0;
    while i < n
        invariant
            n == ds@.len(),
            i <= n,
            m == views_of(ds@),
            forall|j: int| 0 <= j < i ==> (#[trigger] m[j]).serial != serial@,
        decreases n - i,
    {
        if str_eq(ds[i].serial.as_str(), serial) {
            proof {
                assert(m[i as int] == ds@[i as int]@);
                lemma_serial_index_is(m, serial@, i as int);
                assert(has_serial(m, serial@));
            }
            return i;
        }
        proof {
            assert(m[i as int] == ds@[i as int]@);
        }
        i += 1;
    }
    proof {
        lemma_serial_index_is(m, serial@, n as int);
        assert(!has_serial(m, serial@));
    }
    n
}

/// Parses complete `adb devices -l` output into device records, exactly as
/// `parse_output` describes: the table after the first header occurrence,
/// one record per well-formed line, duplicates and empty lines skipped, the
/// first malformed line reported as the error.
pub fn parse_devices_output(output: &str) -> (r: Result<Vec<Device>, ParseError>)
    ensures
        match r {
            Ok(ds) => parse_output(output@) == Ok::<Seq<DeviceView>, ParseError>(
                views_of(ds@),
            ) && distinct_serials(views_of(ds@)),
            Err(e) => parse_output(output@) == Err::<Seq<DeviceView>, ParseError>(e),
        },
{
    let hdr = "List of devices attached\n";
    let idx = match find_sub_str(output, hdr) {
        Some(i) => i,
        None => {
            return Err(ParseError::MissingHeader);
        },
    };
    let hlen = hdr.unicode_len();
    let olen = output.unicode_len();
    let rest = output.substring_char(idx + hlen, olen);
    proof {
        assert(rest@ =~= output@.skip(idx + header().len()));
    }
    let lines = split_lines(rest);
    let ghost all = spec_lines(rest@);
    let mut devices: Vec<Device> = Vec::new();
    let mut i: usize = 0;
    proof {
        assert(all.skip(0) =~= all);
        assert(views_of(devices@) =~= Seq::<DeviceView>::empty());
    }
    while i < lines.len()
        invariant
            i <= lines@.len(),
            lines@.map_values(|l: String| l@) == all,
            parse_output(output@) == parse_lines(all, Seq::<DeviceView>::empty()),
            parse_lines(all, Seq::<DeviceView>::empty()) == parse_lines(
                all.skip(i as int),
                views_of(devices@),
            ),
            distinct_serials(views_of(devices@)),
        decreases lines@.len() - i,
    {
        let ghost accv = views_of(devices@);
        proof {
            assert(all[i as int] == lines@[i as int]@);
            assert(all.skip(i as int)[0] == all[i as int]);
            assert(all.skip(i as int).skip(1) =~= all.skip(i as int + 1));
        }
        let line = lines[i].as_str();
        let llen = line.unicode_len();
        if llen == 0 {
            i += 1;
        } else {
            let parts = tokens_of(line);
            if parts.len() == 0 {
                proof {
                    assert(spec_tokens(line@).len() == 0);
                }
                return Err(ParseError::MissingSerial);
            }
            proof {
                assert(spec_tokens(line@)[0] == parts@[0]@);
            }
            let pos = find_serial(&devices, parts[0].as_str());
            if pos < devices.len() {
                i += 1;
            } else {
                match parse_device_line(line, &parts) {
                    Err(e) => {
                        return Err(e);
                    },
                    Ok(d) => {
                        proof {
                            assert(d@.serial == parts@[0]@);
                            assert(distinct_serials(accv.push(d@))) by {
                                assert forall|p: int, q: int|
                                    0 <= p < q < accv.push(d@).len() implies accv.push(d@)[p].serial
                                    != accv.push(d@)[q].serial by {
                                    if q < accv.len() {
                                        assert(accv.push(d@)[p] == accv[p]);
                                        assert(accv.push(d@)[q] == accv[q]);
                                    } else {
                                        assert(accv.push(d@)[p] == accv[p]);
                                        assert(accv.push(d@)[q] == d@);
                                        assert(accv[p].serial != parts@[0]@);
                                    }
                                }
                            }
                            assert(views_of(devices@.push(d)) =~= accv.push(d@));
                        }
                        devices.push(d);
                        i += 1;
                    },
                }
            }
        }
    }
    proof {
        assert(all.skip(lines@.len() as int) =~= Seq::<Seq<char>>::empty());
    }
    Ok(devices)
}

} // verus!
