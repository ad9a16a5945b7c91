//! Weather reports of aviationweather.gov.

use crate::json::{opt_cell, opt_content, read_optional, Cell, CellView};
use crate::measure::Real;
use crate::opensky::is_success;
use crate::text::opt_text;
use crate::types::{Weather, WeatherView};
use serde_json::Value;
use vstd::prelude::*;
use vstd::string::*;

verus! {

/// A report as the service gives it.
#[derive(Debug)]
pub struct MetarRaw {
    pub icao_id: String,
    pub obs_time: i64,
    pub temp: Option<Real>,
    pub dewp: Option<Real>,
    /// Degrees, or a text such as "VRB".
    pub wdir: Option<Value>,
    pub wspd: Option<Real>,
    pub wgst: Option<Real>,
    /// Statute miles, or a text such as "10+".
    pub visib: Option<Value>,
    pub altim: Option<Real>,
    pub wx_string: Option<String>,
    pub clouds: Option<Vec<CloudLayer>>,
    pub flt_cat: Option<String>,
    pub raw_ob: String,
}

/// A layer of clouds: how much it covers, and its base in feet above ground.
#[derive(Debug)]
pub struct CloudLayer {
    pub cover: String,
    pub base: Option<i32>,
}

/// The content of a `CloudLayer`.
pub struct LayerView {
    pub cover: Seq<char>,
    pub base: Option<i32>,
}

impl View for CloudLayer {
    type V = LayerView;

    open spec fn view(&self) -> LayerView {
        LayerView { cover: self.cover@, base: self.base }
    }
}

/// The content of a `MetarRaw`.
pub struct MetarView {
    pub icao_id: Seq<char>,
    pub obs_time: i64,
    pub temp: Option<Real>,
    pub dewp: Option<Real>,
    pub wdir: Option<CellView>,
    pub wspd: Option<Real>,
    pub wgst: Option<Real>,
    pub visib: Option<CellView>,
    pub altim: Option<Real>,
    pub wx_string: Option<Seq<char>>,
    pub layers: Seq<LayerView>,
    pub flt_cat: Option<Seq<char>>,
    pub raw_ob: Seq<char>,
}

/// The layers of an optional list; none where there is no list.
pub open spec fn layers_of(clouds: Option<Vec<CloudLayer>>) -> Seq<LayerView> {
    match clouds {
        Some(layers) => crate::types::contents(layers@),
        None => Seq::empty(),
    }
}

impl View for MetarRaw {
    type V = MetarView;

    open spec fn view(&self) -> MetarView {
        MetarView {
            icao_id: self.icao_id@,
            obs_time: self.obs_time,
            temp: self.temp,
            dewp: self.dewp,
            wdir: opt_content(self.wdir),
            wspd: self.wspd,
            wgst: self.wgst,
            visib: opt_content(self.visib),
            altim: self.altim,
            wx_string: opt_text(self.wx_string),
            layers: layers_of(self.clouds),
            flt_cat: opt_text(self.flt_cat),
            raw_ob: self.raw_ob@,
        }
    }
}

/// The layer is broken or overcast and its base is known.
pub open spec fn is_closed(layer: LayerView) -> bool {
    (layer.cover == "BKN"@ || layer.cover == "OVC"@) && layer.base is Some
}

/// The base of the lowest layer that is broken or overcast.
pub open spec fn ceiling_of(layers: Seq<LayerView>) -> Option<i32>
    decreases layers.len(),
{
    if layers.len() == 0 {
        None
    } else {
        let before = ceiling_of(layers.drop_last());
        let layer = layers.last();
        if !is_closed(layer) {
            before
        } else {
            match before {
                Some(low) => if low <= layer.base->0 {
                    Some(low)
                } else {
                    layer.base
                },
                None => layer.base,
            }
        }
    }
}

/// An integer brought into the 32-bit range by whole turns of two to the 32.
pub open spec fn wrapped_i32(n: int) -> int {
    (n + 0x8000_0000) % 0x1_0000_0000 - 0x8000_0000
}

/// Degrees of a wind direction that is an integer.
pub open spec fn direction_of(wdir: Option<CellView>) -> Option<i32> {
    match wdir {
        Some(c) => match c.whole() {
            Some(n) => Some(wrapped_i32(n as int) as i32),
            None => None,
        },
        None => None,
    }
}

/// A visibility as a text: that of a text, or the notation of a number.
pub open spec fn visibility_of(visib: Option<CellView>) -> Option<Seq<char>> {
    match visib {
        Some(CellView::Number { whole, measured, text }) => Some(text),
        Some(CellView::Text(t)) => Some(t),
        _ => None,
    }
}

/// The weather that a report tells.
pub open spec fn weather_content(raw: MetarView) -> WeatherView {
    WeatherView {
        station: raw.icao_id,
        observed_at_s: raw.obs_time,
        temp_c: raw.temp,
        dewpoint_c: raw.dewp,
        wind_dir_deg: direction_of(raw.wdir),
        wind_speed_kt: raw.wspd,
        wind_gust_kt: raw.wgst,
        visibility_sm: visibility_of(raw.visib),
        altimeter_hpa: raw.altim,
        ceiling_ft: ceiling_of(raw.layers),
        flight_category: raw.flt_cat,
        wx_string: raw.wx_string,
        raw: raw.raw_ob,
    }
}

/// Ceiling: the base of the lowest layer that is broken or overcast, in feet.
pub fn compute_ceiling_ft(clouds: &Option<Vec<CloudLayer>>) -> (r: Option<i32>)
    ensures
        r == ceiling_of(layers_of(*clouds)),
{
    match clouds {
        Some(layers) => {
            let n: usize = layers.len();
            let ghost all = crate::types::contents(layers@);
            let broken = "BKN".to_owned();
            let overcast = "OVC".to_owned();
            let mut lowest: Option<i32> = None;
            let mut i: usize = 0;
            assert(all.take(0) =~= Seq::<LayerView>::empty());
            while i < n
                invariant
                    n == layers@.len(),
                    i <= n,
                    all == crate::types::contents(layers@),
                    broken@ == "BKN"@,
                    overcast@ == "OVC"@,
                    lowest == ceiling_of(all.take(i as int)),
                decreases n - i,
            {
                let layer = &layers[i];
                proof {
                    assert(all.take(i + 1).drop_last() =~= all.take(i as int));
                    assert(all.take(i + 1).last() == layer@);
                }
                if layer.cover == broken || layer.cover == overcast {
                    match layer.base {
                        Some(base) => {
                            let keep = match lowest {
                                Some(low) => low <= base,
                                None => false,
                            };
                            if !keep {
                                lowest = Some(base);
                            }
                        },
                        None => {},
                    }
                }
                i = i + 1;
            }
            assert(all.take(n as int) =~= all);
            lowest
        },
        None => None,
    }
}

/// The ceiling is the base of a broken or overcast layer, and no such layer is lower;
/// there is none exactly where there is no such layer.
pub proof fn ceiling_is_the_lowest(layers: Seq<LayerView>)
    ensures
        match ceiling_of(layers) {
            Some(low) => {
                &&& exists|i: int|
                    0 <= i < layers.len() && is_closed(#[trigger] layers[i]) && layers[i].base
                        == Some(low)
                &&& forall|i: int|
                    0 <= i < layers.len() && is_closed(#[trigger] layers[i]) ==> low
                        <= layers[i].base->0
            },
            None => forall|i: int| 0 <= i < layers.len() ==> !is_closed(#[trigger] layers[i]),
        },
    decreases layers.len(),
{
    if layers.len() > 0 {
        let head = layers.drop_last();
        ceiling_is_the_lowest(head);
        assert forall|i: int| 0 <= i < head.len() implies #[trigger] layers[i] == head[i] by {}
        let layer = layers[layers.len() - 1];
        if ceiling_of(head) is Some {
            let low = ceiling_of(head)->0;
            let i = choose|i: int|
                0 <= i < head.len() && is_closed(#[trigger] head[i]) && head[i].base == Some(low);
            assert(layers[i] == head[i]);
        }
    }
}

/// Degrees of a wind direction that was read.
pub fn direction_from(wdir: &Option<Cell>) -> (r: Option<i32>)
    ensures
        r == direction_of(opt_cell(*wdir)),
{
    match wdir {
        Some(c) => match c.as_whole() {
            Some(n) => {
                let turned: i128 = (n as i128 + 0x8000_0000 + 0x1_0000_0000_0000_0000)
                    % 0x1_0000_0000;
                assert(turned == (n + 0x8000_0000) % 0x1_0000_0000);
                Some((turned - 0x8000_0000) as i32)
            },
            None => None,
        },
        None => None,
    }
}

/// A visibility that was read, as a text.
pub fn visibility_from(visib: &Option<Cell>) -> (r: Option<String>)
    ensures
        opt_text(r) == visibility_of(opt_cell(*visib)),
{
    match visib {
        Some(Cell::Number { whole, measured, text }) => Some(text.clone()),
        Some(Cell::Text(t)) => Some(t.clone()),
        _ => None,
    }
}

/// Degrees of a wind direction.
pub fn value_as_i32(v: &Option<Value>) -> (r: Option<i32>)
    ensures
        r == direction_of(opt_content(*v)),
{
    direction_from(&read_optional(v))
}

/// A visibility as a text.
pub fn value_as_visib_string(v: &Option<Value>) -> (r: Option<String>)
    ensures
        opt_text(r) == visibility_of(opt_content(*v)),
{
    visibility_from(&read_optional(v))
}

/// The weather that a report tells.
pub fn raw_to_weather(raw: MetarRaw) -> (r: Weather)
    ensures
        r@ == weather_content(raw@),
{
    let ceiling_ft = compute_ceiling_ft(&raw.clouds);
    let wind_dir_deg = value_as_i32(&raw.wdir);
    let visibility_sm = value_as_visib_string(&raw.visib);
    Weather {
        station: raw.icao_id,
        observed_at_s: raw.obs_time,
        temp_c: raw.temp,
        dewpoint_c: raw.dewp,
        wind_dir_deg,
        wind_speed_kt: raw.wspd,
        wind_gust_kt: raw.wgst,
        visibility_sm,
        altimeter_hpa: raw.altim,
        ceiling_ft,
        flight_category: raw.flt_cat,
        wx_string: raw.wx_string,
        raw: raw.raw_ob,
    }
}

/// The weather of the first report of an answer; an error where there is none.
pub fn first_observation(reports: Vec<MetarRaw>) -> (r: Result<Weather, String>)
    ensures
        reports@.len() > 0 ==> r is Ok && r->Ok_0@ == weather_content(reports@[0]@),
        reports@.len() == 0 ==> r is Err && r->Err_0@ == "metar response had no observations"@,
{
    let mut reports = reports;
    if reports.len() == 0 {
        Err("metar response had no observations".to_owned())
    } else {
        Ok(raw_to_weather(reports.swap_remove(0)))
    }
}

/// The weather to go on with after a request: what was fetched, or what was known before
/// where the request failed.
pub fn weather_after(before: Option<Weather>, fetched: Result<Weather, String>) -> (r: Option<
    Weather,
>)
    ensures
        fetched is Ok ==> r == Some(fetched->Ok_0),
        fetched is Err ==> r == before,
{
    match fetched {
        Ok(weather) => Some(weather),
        Err(_) => before,
    }
}

/// The address of the reports of a station.
pub fn metar_url(station: &str) -> (r: String)
    ensures
        r@ == "https://aviationweather.gov/api/data/metar?ids="@ + station@ + "&format=json"@,
{
    let mut s = "https://aviationweather.gov/api/data/metar?ids=".to_owned();
    s.append(station);
    s.append("&format=json");
    s
}

/// The error that an answer is turned into, none where it is a success. `status_line` is
/// the status with its reason.
pub fn status_error(status: u16, status_line: &str) -> (r: Option<String>)
    ensures
        opt_text(r) == (if is_success(status) {
            None
        } else {
            Some("metar http "@ + status_line@)
        }),
{
    if status >= 200 && status < 300 {
        None
    } else {
        let mut s = "metar http ".to_owned();
        s.append(status_line);
        Some(s)
    }
}

/// The weather of a report has its station, its moment and its measurements as they are.
pub proof fn weather_repeats_the_report(raw: MetarView)
    ensures
        weather_content(raw).station == raw.icao_id,
        weather_content(raw).observed_at_s == raw.obs_time,
        weather_content(raw).temp_c == raw.temp,
        weather_content(raw).dewpoint_c == raw.dewp,
        weather_content(raw).wind_speed_kt == raw.wspd,
        weather_content(raw).wind_gust_kt == raw.wgst,
        weather_content(raw).altimeter_hpa == raw.altim,
        weather_content(raw).flight_category == raw.flt_cat,
        weather_content(raw).wx_string == raw.wx_string,
        weather_content(raw).raw == raw.raw_ob,
{
}

/// A wind direction is known exactly where it is an integer. It is that integer where it has
/// 32 bits, and differs from it by whole turns of two to the 32 otherwise.
pub proof fn wind_directions_are_integers(raw: MetarView)
    ensures
        raw.wdir matches Some(CellView::Number { whole: Some(n), measured, text }) ==> {
            &&& weather_content(raw).wind_dir_deg is Some
            &&& i32::MIN <= n <= i32::MAX ==> weather_content(raw).wind_dir_deg->0 == n
            &&& (n - weather_content(raw).wind_dir_deg->0) % 0x1_0000_0000 == 0
        },
        !(raw.wdir matches Some(CellView::Number { whole: Some(n), measured, text }))
            ==> weather_content(raw).wind_dir_deg is None,
{
}

/// A visibility is told in the words of the report, or in the digits of its number.
pub proof fn visibilities_are_told_as_given(raw: MetarView)
    ensures
        raw.visib matches Some(CellView::Number { whole, measured, text }) ==> weather_content(
            raw,
        ).visibility_sm == Some(text),
        raw.visib matches Some(CellView::Text(t)) ==> weather_content(raw).visibility_sm == Some(t),
        raw.visib is None || raw.visib->0 is Bool || raw.visib->0 is Other ==> weather_content(
            raw,
        ).visibility_sm is None,
{
}

/// The ceiling is the base of a layer that is broken (BKN) or overcast (OVC), no such layer
/// with a known base is lower, and there is none exactly where there is no such layer.
pub proof fn ceiling_is_the_lowest_closed_layer(raw: MetarView)
    ensures
        match weather_content(raw).ceiling_ft {
            Some(low) => {
                &&& exists|i: int|
                    0 <= i < raw.layers.len() && (#[trigger] raw.layers[i]).base == Some(low) && (
                    raw.layers[i].cover == "BKN"@ || raw.layers[i].cover == "OVC"@)
                &&& forall|i: int|
                    0 <= i < raw.layers.len() && ((#[trigger] raw.layers[i]).cover == "BKN"@
                        || raw.layers[i].cover == "OVC"@) && raw.layers[i].base is Some ==> low
                        <= raw.layers[i].base->0
            },
            None => forall|i: int|
                0 <= i < raw.layers.len() && ((#[trigger] raw.layers[i]).cover == "BKN"@
                    || raw.layers[i].cover == "OVC"@) ==> raw.layers[i].base is None,
        },
{
    ceiling_is_the_lowest(raw.layers);
    if weather_content(raw).ceiling_ft is Some {
        let low = weather_content(raw).ceiling_ft->0;
        let i = choose|i: int|
            0 <= i < raw.layers.len() && is_closed(#[trigger] raw.layers[i]) && raw.layers[i].base
                == Some(low);
        assert(raw.layers[i].base == Some(low));
        assert forall|i: int|
            0 <= i < raw.layers.len() && ((#[trigger] raw.layers[i]).cover == "BKN"@
                || raw.layers[i].cover == "OVC"@) && raw.layers[i].base is Some implies low
            <= raw.layers[i].base->0 by {
            assert(is_closed(raw.layers[i]));
        }
    } else {
        assert forall|i: int|
            0 <= i < raw.layers.len() && ((#[trigger] raw.layers[i]).cover == "BKN"@
                || raw.layers[i].cover == "OVC"@) implies raw.layers[i].base is None by {
            assert(!is_closed(raw.layers[i]));
        }
    }
}

/// The content of a report is that of its fields, and of its layers one by one.
pub proof fn content_of_metar(x: MetarRaw, i: int)
    ensures
        x@.icao_id == x.icao_id@,
        x@.obs_time == x.obs_time,
        x@.temp == x.temp,
        x@.dewp == x.dewp,
        x@.wdir == opt_content(x.wdir),
        x@.wspd == x.wspd,
        x@.wgst == x.wgst,
        x@.visib == opt_content(x.visib),
        x@.altim == x.altim,
        x@.wx_string == opt_text(x.wx_string),
        x@.flt_cat == opt_text(x.flt_cat),
        x@.raw_ob == x.raw_ob@,
        x.clouds is None ==> x@.layers.len() == 0,
        x.clouds matches Some(list) ==> x@.layers.len() == list@.len(),
        x.clouds matches Some(list) ==> (0 <= i < list@.len() ==> x@.layers[i].cover
            == list@[i].cover@ && x@.layers[i].base == list@[i].base),
{
}

} // verus!
