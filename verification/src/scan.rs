//! Device discovery data and the whole scan.
//!
//! The binary walks the hardware-monitoring class directory and gathers,
//! for each candidate device directory, the raw texts of its `name` file
//! and of every channel file — the files named "temp<N>_input" with <N> a
//! positive number.  Populating the devices from those texts is verified
//! here; one unreadable channel aborts the whole run, as there is no
//! per-device error isolation.

use vstd::prelude::*;

use crate::device::{
    all_parse_ok, avg_milli, first_bad, parsed_values, texts_view, Device, DeviceView,
};
use crate::parse::{
    all_digits, digits_val, is_digit, is_digit_char, lemma_digits_val_pos, lemma_digits_val_zero,
    parse_err, trimmed, TempError,
};

verus! {

/// The raw texts gathered for one candidate device directory.
pub struct DeviceScan {
    /// The device directory.
    pub dir: String,
    /// Contents of the directory's `name` file.
    pub name_text: String,
    /// Contents of the channel files, in enumeration order.
    pub channel_texts: Vec<String>,
}

/// The mathematical content of a scan.
pub ghost struct ScanView {
    pub dir: Seq<char>,
    pub name_text: Seq<char>,
    pub channels: Seq<Seq<char>>,
}

impl View for DeviceScan {
    type V = ScanView;

    open spec fn view(&self) -> ScanView {
        ScanView {
            dir: self.dir@,
            name_text: self.name_text@,
            channels: texts_view(self.channel_texts@),
        }
    }
}

/// Whether every channel text of a scan parses.
pub open spec fn scan_ok(s: ScanView) -> bool {
    all_parse_ok(s.channels)
}

/// The device a scan populates.
pub open spec fn device_of(s: ScanView) -> DeviceView {
    DeviceView {
        name: trimmed(s.name_text),
        dir: s.dir,
        temps: parsed_values(s.channels),
        avg_temp: avg_milli(parsed_values(s.channels)),
    }
}

pub open spec fn scan_views(ss: Seq<DeviceScan>) -> Seq<ScanView> {
    ss.map_values(|s: DeviceScan| s@)
}

pub open spec fn all_scans_ok(ss: Seq<ScanView>) -> bool {
    forall|i: int| 0 <= i < ss.len() ==> scan_ok(ss[i])
}

/// The position of the first scan with an unreadable channel.
pub open spec fn first_bad_scan(ss: Seq<ScanView>) -> int
    decreases ss.len(),
{
    if ss.len() == 0 {
        0
    } else if !scan_ok(ss[0]) {
        0
    } else {
        1 + first_bad_scan(ss.subrange(1, ss.len() as int))
    }
}

proof fn lemma_first_bad_scan_at(ss: Seq<ScanView>, k: int)
    requires
        0 <= k < ss.len(),
        !scan_ok(ss[k]),
        forall|j: int| 0 <= j < k ==> scan_ok(ss[j]),
    ensures
        first_bad_scan(ss) == k,
    decreases k,
{
    if k > 0 {
        lemma_first_bad_scan_at(ss.subrange(1, ss.len() as int), k - 1);
    }
}

/// The error the whole run fails with: that of the first unreadable
/// channel of the first failing scan.
pub open spec fn scan_err(ss: Seq<ScanView>) -> TempError {
    let s = ss[first_bad_scan(ss)];
    parse_err(s.channels[first_bad(s.channels)])
}

/// A channel file's name: "temp<N>_input" with <N> a positive number.
pub open spec fn is_channel_name(s: Seq<char>) -> bool {
    &&& s.len() >= 11
    &&& s.subrange(0, 4) == "temp"@
    &&& s.subrange(s.len() - 6, s.len() as int) == "_input"@
    &&& all_digits(s.subrange(4, s.len() - 6))
    &&& digits_val(s.subrange(4, s.len() - 6)) > 0
}

/// Whether a file name denotes a temperature channel.
pub fn is_channel_file(name: &str) -> (r: bool)
    ensures
        r == is_channel_name(name@),
{
    proof {
        reveal_strlit("temp");
        reveal_strlit("_input");
    }
    let n = name.unicode_len();
    if n < 11 {
        return false;
    }
    if !(name.get_char(0) == 't' && name.get_char(1) == 'e' && name.get_char(2) == 'm'
        && name.get_char(3) == 'p') {
        proof {
            assert(name@.subrange(0, 4) != "temp"@) by {
                if name@.subrange(0, 4) == "temp"@ {
                    assert(name@[0] == "temp"@[0]);
                    assert(name@[1] == "temp"@[1]);
                    assert(name@[2] == "temp"@[2]);
                    assert(name@[3] == "temp"@[3]);
                }
            }
        }
        return false;
    }
    let suffix_ok = name.get_char(n - 6) == '_' && name.get_char(n - 5) == 'i' && name.get_char(
        n - 4,
    ) == 'n' && name.get_char(n - 3) == 'p' && name.get_char(n - 2) == 'u' && name.get_char(n - 1)
        == 't';
    if !suffix_ok {
        proof {
            let tail = name@.subrange(n - 6, n as int);
            assert(tail != "_input"@) by {
                if tail == "_input"@ {
                    assert(tail[0] == "_input"@[0]);
                    assert(tail[1] == "_input"@[1]);
                    assert(tail[2] == "_input"@[2]);
                    assert(tail[3] == "_input"@[3]);
                    assert(tail[4] == "_input"@[4]);
                    assert(tail[5] == "_input"@[5]);
                }
            }
        }
        return false;
    }
    let ghost mid = name@.subrange(4, n - 6);
    let mut any: bool = false;
    let mut i: usize = 4;
    while i < n - 6
        invariant
            4 <= i <= n - 6,
            11 <= n == name@.len(),
            mid == name@.subrange(4, n - 6),
            forall|j: int| 0 <= j < i - 4 ==> is_digit_char(mid[j]),
            any == exists|j: int| 0 <= j < i - 4 && mid[j] != '0',
        decreases n - 6 - i,
    {
        let c = name.get_char(i);
        proof {
            assert(mid[i - 4] == name@[i as int]);
        }
        if !is_digit(c) {
            return false;
        }
        if c != '0' {
            any = true;
        }
        i = i + 1;
    }
    proof {
        assert(all_digits(mid));
        assert(name@.subrange(0, 4) =~= "temp"@);
        assert(name@.subrange(n - 6, n as int) =~= "_input"@);
        if any {
            let j = choose|j: int| 0 <= j < mid.len() && mid[j] != '0';
            lemma_digits_val_pos(mid, j);
        } else {
            lemma_digits_val_zero(mid);
        }
    }
    any
}

/// Populates one device per scan, in the scans' order.  A channel text
/// that does not parse aborts the whole run with its error: no devices are
/// returned, not even those populated before it.
pub fn get_devices(scans: &Vec<DeviceScan>) -> (r: Result<Vec<Device>, TempError>)
    ensures
        r is Ok <==> all_scans_ok(scan_views(scans@)),
        r is Ok ==> {
            &&& r->Ok_0@.len() == scans@.len()
            &&& forall|j: int|
                0 <= j < scans@.len() ==> (#[trigger] r->Ok_0@[j])@ == device_of(
                    scan_views(scans@)[j],
                )
        },
        r is Err ==> r == Err::<Vec<Device>, TempError>(scan_err(scan_views(scans@))),
{
    let ghost svs = scan_views(scans@);
    let mut devices: Vec<Device> = Vec::new();
    let mut i: usize = 0;
    while i < scans.len()
        invariant
            0 <= i <= scans@.len(),
            svs == scan_views(scans@),
            devices@.len() == i,
            forall|j: int| 0 <= j < i ==> scan_ok(svs[j]),
            forall|j: int| 0 <= j < i ==> (#[trigger] devices@[j])@ == device_of(svs[j]),
        decreases scans@.len() - i,
    {
        let scan = &scans[i];
        let mut dev = Device::new();
        dev.dir = scan.dir.clone();
        match dev.init_data(&scan.channel_texts, scan.name_text.as_str()) {
            Ok(_) => {},
            Err(e) => {
                proof {
                    lemma_first_bad_scan_at(svs, i as int);
                }
                return Err(e);
            },
        }
        dev.calculate_avg();
        proof {
            assert(dev@ == device_of(svs[i as int]));
        }
        devices.push(dev);
        i = i + 1;
    }
    Ok(devices)
}

} // verus!
