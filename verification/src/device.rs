//! Sensor devices and their aggregated readings.
//!
//! A device keeps its readings as whole millidegree counts.  The stored
//! average is the Euclidean quotient of their sum by their count, and zero
//! when there are no readings: zero doubles as the "not available" sentinel,
//! so a genuine all-zero average cannot be told apart from a sensorless
//! device by the average alone.

use vstd::arithmetic::div_mod::{
    lemma_div_is_ordered, lemma_div_multiples_vanish, lemma_div_nonincreasing,
    lemma_fundamental_div_mod, lemma_fundamental_div_mod_converse,
};
use vstd::prelude::*;

use crate::parse::{
    parse_err, parse_millideg, parse_ok, parse_val, trim_str, trimmed, TempError,
};

verus! {

/// One hardware-monitoring sensor chip instance.
pub struct Device {
    /// Identifier read from the device's `name` file, trimmed.
    pub name: String,
    /// Filesystem location backing this device.
    pub dir: String,
    /// Millidegree readings, one per channel file, in enumeration order.
    pub temps: Vec<i64>,
    /// Millidegree average; zero when `temps` is empty.
    pub avg_temp: i64,
}

/// The mathematical content of a device record.
pub ghost struct DeviceView {
    pub name: Seq<char>,
    pub dir: Seq<char>,
    pub temps: Seq<int>,
    pub avg_temp: int,
}

/// Readings as mathematical integers.
pub open spec fn milli_views(s: Seq<i64>) -> Seq<int> {
    s.map_values(|t: i64| t as int)
}

impl View for Device {
    type V = DeviceView;

    open spec fn view(&self) -> DeviceView {
        DeviceView {
            name: self.name@,
            dir: self.dir@,
            temps: milli_views(self.temps@),
            avg_temp: self.avg_temp as int,
        }
    }
}

/// Sum of a sequence of millidegree readings.
pub open spec fn sum_milli(s: Seq<int>) -> int
    decreases s.len(),
{
    if s.len() == 0 {
        0
    } else {
        sum_milli(s.drop_last()) + s.last()
    }
}

/// The stored average: the Euclidean quotient of sum and count, and zero —
/// the "not available" sentinel — when there are no readings.
pub open spec fn avg_milli(s: Seq<int>) -> int {
    if s.len() == 0 {
        0
    } else {
        sum_milli(s) / (s.len() as int)
    }
}

/// The views of a sequence of texts.
pub open spec fn texts_view(ts: Seq<String>) -> Seq<Seq<char>> {
    ts.map_values(|t: String| t@)
}

/// Whether every channel text parses as a reading.
pub open spec fn all_parse_ok(ts: Seq<Seq<char>>) -> bool {
    forall|i: int| 0 <= i < ts.len() ==> parse_ok(ts[i])
}

/// The readings written by a sequence of channel texts.
pub open spec fn parsed_values(ts: Seq<Seq<char>>) -> Seq<int> {
    ts.map_values(|t: Seq<char>| parse_val(t))
}

/// The position of the first channel text that does not parse.
pub open spec fn first_bad(ts: Seq<Seq<char>>) -> int
    decreases ts.len(),
{
    if ts.len() == 0 {
        0
    } else if !parse_ok(ts[0]) {
        0
    } else {
        1 + first_bad(ts.subrange(1, ts.len() as int))
    }
}

pub proof fn lemma_first_bad_at(ts: Seq<Seq<char>>, k: int)
    requires
        0 <= k < ts.len(),
        !parse_ok(ts[k]),
        forall|j: int| 0 <= j < k ==> parse_ok(ts[j]),
    ensures
        first_bad(ts) == k,
    decreases k,
{
    if k > 0 {
        let rest = ts.subrange(1, ts.len() as int);
        lemma_first_bad_at(rest, k - 1);
    }
}

/// Euclidean quotient of a sum of readings by their count.
fn div_sum(sum: i128, len: usize) -> (q: i128)
    requires
        len > 0,
        (len as int) * (i64::MIN as int) <= sum as int <= (len as int) * (i64::MAX as int),
    ensures
        q as int == sum as int / (len as int),
        i64::MIN as int <= q as int <= i64::MAX as int,
{
    let q: i128 = if sum >= 0 {
        let qa = (sum as u128) / (len as u128);
        proof {
            lemma_div_nonincreasing(sum as int, len as int);
        }
        qa as i128
    } else {
        proof {
            assert((len as int) * (i64::MIN as int) > i128::MIN as int) by (nonlinear_arith)
                requires
                    0 < len as int <= 0xFFFF_FFFF_FFFF_FFFFint,
            ;
        }
        let m = (-sum) as u128;
        let k = m / (len as u128);
        let r = m % (len as u128);
        proof {
            lemma_fundamental_div_mod(m as int, len as int);
            lemma_div_nonincreasing(m as int, len as int);
        }
        if r == 0 {
            proof {
                assert(sum as int == (-(k as int)) * (len as int) + 0) by (nonlinear_arith)
                    requires
                        m as int == (len as int) * (k as int) + 0,
                        sum as int == -(m as int),
                ;
                lemma_fundamental_div_mod_converse(sum as int, len as int, -(k as int), 0);
            }
            -(k as i128)
        } else {
            proof {
                assert(sum as int == (-(k as int) - 1) * (len as int) + ((len as int) - (
                r as int))) by (nonlinear_arith)
                    requires
                        m as int == (len as int) * (k as int) + (r as int),
                        sum as int == -(m as int),
                ;
                lemma_fundamental_div_mod_converse(
                    sum as int,
                    len as int,
                    -(k as int) - 1,
                    (len as int) - (r as int),
                );
            }
            -(k as i128) - 1
        }
    };
    proof {
        lemma_div_is_ordered((len as int) * (i64::MIN as int), sum as int, len as int);
        lemma_div_is_ordered(sum as int, (len as int) * (i64::MAX as int), len as int);
        lemma_div_multiples_vanish(i64::MIN as int, len as int);
        lemma_div_multiples_vanish(i64::MAX as int, len as int);
    }
    q
}

impl Device {
    /// An empty record: no name, no location, no readings, sentinel average.
    pub fn new() -> (d: Device)
        ensures
            d@.name == Seq::<char>::empty(),
            d@.dir == Seq::<char>::empty(),
            d@.temps == Seq::<int>::empty(),
            d@.avg_temp == 0,
    {
        let d = Device {
            name: String::new(),
            dir: String::new(),
            temps: Vec::new(),
            avg_temp: 0,
        };
        proof {
            assert(milli_views(d.temps@) =~= Seq::<int>::empty());
        }
        d
    }

    /// Fills the readings from the channel texts and the name from the name
    /// file's text.  Every channel text must parse, in millidegrees; on the
    /// first one that does not, nothing is changed and its error is
    /// returned.
    pub fn init_data(&mut self, channel_texts: &Vec<String>, name_text: &str) -> (r: Result<
        (),
        TempError,
    >)
        ensures
            r is Ok <==> all_parse_ok(texts_view(channel_texts@)),
            r is Ok ==> {
                &&& final(self)@.temps == parsed_values(texts_view(channel_texts@))
                &&& final(self)@.name == trimmed(name_text@)
                &&& final(self).dir == old(self).dir
                &&& final(self).avg_temp == old(self).avg_temp
            },
            r is Err ==> {
                &&& r == Err::<(), TempError>(
                    parse_err(texts_view(channel_texts@)[first_bad(texts_view(channel_texts@))]),
                )
                &&& *final(self) == *old(self)
            },
    {
        let ghost ts = texts_view(channel_texts@);
        let mut vals: Vec<i64> = Vec::new();
        let mut i: usize = 0;
        while i < channel_texts.len()
            invariant
                0 <= i <= channel_texts@.len(),
                ts == texts_view(channel_texts@),
                vals@.len() == i,
                forall|j: int| 0 <= j < i ==> parse_ok(ts[j]),
                forall|j: int| 0 <= j < i ==> vals@[j] as int == parse_val(ts[j]),
                *self == *old(self),
            decreases channel_texts@.len() - i,
        {
            match parse_millideg(channel_texts[i].as_str()) {
                Ok(v) => vals.push(v),
                Err(e) => {
                    proof {
                        lemma_first_bad_at(ts, i as int);
                    }
                    return Err(e);
                },
            }
            i = i + 1;
        }
        self.temps = vals;
        self.name = String::from_str(trim_str(name_text));
        proof {
            assert(milli_views(self.temps@) =~= parsed_values(ts));
        }
        Ok(())
    }

    /// Stores the average of the readings: their sum divided by their
    /// count, and the zero sentinel when there are none.
    pub fn calculate_avg(&mut self)
        ensures
            final(self).name == old(self).name,
            final(self).dir == old(self).dir,
            final(self).temps == old(self).temps,
            final(self)@.avg_temp == avg_milli(old(self)@.temps),
    {
        let n = self.temps.len();
        if n == 0 {
            // zero denotes no sensors found
            self.avg_temp = 0;
            return;
        }
        let ghost mv = milli_views(self.temps@);
        let mut sum: i128 = 0;
        let mut i: usize = 0;
        while i < n
            invariant
                0 <= i <= n,
                n == self.temps@.len(),
                *self == *old(self),
                mv == milli_views(self.temps@),
                (i as int) * (i64::MIN as int) <= sum as int <= (i as int) * (i64::MAX as int),
                sum as int == sum_milli(mv.subrange(0, i as int)),
            decreases n - i,
        {
            let t = self.temps[i];
            proof {
                assert(0 < i + 1 <= 0xFFFF_FFFF_FFFF_FFFFint);
                assert((i + 1) * (i64::MIN as int) == (i as int) * (i64::MIN as int) + (
                i64::MIN as int)) by (nonlinear_arith);
                assert((i + 1) * (i64::MAX as int) == (i as int) * (i64::MAX as int) + (
                i64::MAX as int)) by (nonlinear_arith);
                assert((i + 1) * (i64::MIN as int) >= i128::MIN as int) by (nonlinear_arith)
                    requires
                        0 < i + 1 <= 0x1_0000_0000_0000_0000int,
                ;
                assert((i + 1) * (i64::MAX as int) <= i128::MAX as int) by (nonlinear_arith)
                    requires
                        0 < i + 1 <= 0x1_0000_0000_0000_0000int,
                ;
                assert(mv.subrange(0, i + 1).drop_last() =~= mv.subrange(0, i as int));
                assert(mv[i as int] == self.temps@[i as int] as int);
            }
            sum = sum + (t as i128);
            i = i + 1;
        }
        proof {
            assert(mv.subrange(0, n as int) =~= mv);
        }
        let q = div_sum(sum, n);
        self.avg_temp = q as i64;
    }
}

/// A single reading is its own average.
pub proof fn lemma_avg_single_reading(v: int)
    ensures
        avg_milli(seq![v]) == v,
{
    let s = seq![v];
    assert(s.len() == 1 && s.last() == v);
    assert(s.drop_last() =~= Seq::<int>::empty());
    assert(sum_milli(s) == sum_milli(s.drop_last()) + s.last());
    assert(sum_milli(Seq::<int>::empty()) == 0);
    lemma_div_multiples_vanish(v, 1);
}

} // verus!
