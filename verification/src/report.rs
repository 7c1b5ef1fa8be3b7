//! The textual report.
//!
//! Each device prints its name, one line per reading labelled by position,
//! and the average — or the "N/A" placeholder when the average is the
//! sentinel.  One blank line separates consecutive devices; none follows
//! the last.

use vstd::prelude::*;

use crate::device::{avg_milli, milli_views, Device, DeviceView};
use crate::render::{dec_str, format_milli, format_u64, milli_str};

verus! {

/// The text shown for a stored average: the placeholder for the sentinel.
pub open spec fn avg_text(avg: int) -> Seq<char> {
    if avg == 0 {
        "N/A"@
    } else {
        milli_str(avg)
    }
}

/// The numbered reading lines of a device's block.
pub open spec fn sensor_lines(temps: Seq<int>) -> Seq<char>
    decreases temps.len(),
{
    if temps.len() == 0 {
        Seq::<char>::empty()
    } else {
        sensor_lines(temps.drop_last()) + "Sensor"@ + dec_str((temps.len() - 1) as nat) + ": "@
            + milli_str(temps.last()) + "\n"@
    }
}

/// The report block for one device.
pub open spec fn device_block(d: DeviceView) -> Seq<char> {
    "Name: "@ + d.name + "\n"@ + sensor_lines(d.temps) + "Avg temp: "@ + avg_text(d.avg_temp)
        + "\n"@
}

/// The whole report: blocks separated by one blank line, none after the
/// last.
pub open spec fn report_str(ds: Seq<DeviceView>) -> Seq<char>
    decreases ds.len(),
{
    if ds.len() == 0 {
        Seq::<char>::empty()
    } else if ds.len() == 1 {
        device_block(ds[0])
    } else {
        report_str(ds.drop_last()) + "\n"@ + device_block(ds.last())
    }
}

pub open spec fn device_views(ds: Seq<Device>) -> Seq<DeviceView> {
    ds.map_values(|d: Device| d@)
}

impl Device {
    /// The text shown for this device's average.
    pub fn avg_display(&self) -> (r: String)
        ensures
            r@ == avg_text(self@.avg_temp),
    {
        if self.avg_temp == 0 {
            String::from_str("N/A")
        } else {
            format_milli(self.avg_temp)
        }
    }

    /// This device's block of the report, as plain text.
    pub fn show(&self) -> (r: String)
        ensures
            r@ == device_block(self@),
    {
        let ghost temps = self@.temps;
        let mut out = String::from_str("Name: ");
        out.append(self.name.as_str());
        out.append("\n");
        let n = self.temps.len();
        let mut i: usize = 0;
        while i < n
            invariant
                0 <= i <= n,
                n == self.temps@.len(),
                temps == milli_views(self.temps@),
                out@ == "Name: "@ + self@.name + "\n"@ + sensor_lines(temps.subrange(0, i as int)),
            decreases n - i,
        {
            out.append("Sensor");
            let idx = format_u64(i as u64);
            out.append(idx.as_str());
            out.append(": ");
            let tv = format_milli(self.temps[i]);
            out.append(tv.as_str());
            out.append("\n");
            proof {
                let pre = temps.subrange(0, i + 1);
                assert(pre.drop_last() =~= temps.subrange(0, i as int));
                assert(pre.last() == temps[i as int]);
                assert(temps[i as int] == self.temps@[i as int] as int);
                assert(out@ =~= "Name: "@ + self@.name + "\n"@ + sensor_lines(
                    temps.subrange(0, i + 1),
                ));
            }
            i = i + 1;
        }
        proof {
            assert(temps.subrange(0, n as int) =~= temps);
        }
        out.append("Avg temp: ");
        let av = self.avg_display();
        out.append(av.as_str());
        out.append("\n");
        proof {
            assert(out@ =~= device_block(self@));
        }
        out
    }
}

/// The full report for a sequence of devices, in their order.
pub fn render_report(devices: &Vec<Device>) -> (r: String)
    ensures
        r@ == report_str(device_views(devices@)),
{
    let ghost dvs = device_views(devices@);
    let mut out = String::new();
    let n = devices.len();
    let mut i: usize = 0;
    while i < n
        invariant
            0 <= i <= n,
            n == devices@.len(),
            dvs == device_views(devices@),
            out@ == report_str(dvs.subrange(0, i as int)),
        decreases n - i,
    {
        if i > 0 {
            out.append("\n");
        }
        let block = devices[i].show();
        out.append(block.as_str());
        proof {
            let pre = dvs.subrange(0, i + 1);
            assert(pre.drop_last() =~= dvs.subrange(0, i as int));
            assert(pre.last() == dvs[i as int]);
            assert(dvs[i as int] == devices@[i as int]@);
            assert(out@ =~= report_str(dvs.subrange(0, i + 1)));
        }
        i = i + 1;
    }
    proof {
        assert(dvs.subrange(0, n as int) =~= dvs);
    }
    out
}

/// With no readings the stored average is the sentinel, and the block
/// shows the placeholder, not a number.
pub proof fn lemma_no_readings_shows_na(d: DeviceView)
    requires
        d.temps.len() == 0,
        d.avg_temp == avg_milli(d.temps),
    ensures
        d.avg_temp == 0,
        avg_text(d.avg_temp) == "N/A"@,
        device_block(d) == "Name: "@ + d.name + "\n"@ + "Avg temp: "@ + "N/A"@ + "\n"@,
{
    assert(sensor_lines(d.temps) == Seq::<char>::empty());
    assert(device_block(d) =~= "Name: "@ + d.name + "\n"@ + "Avg temp: "@ + "N/A"@ + "\n"@);
}

} // verus!
