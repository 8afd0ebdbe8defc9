//! The commands the dashboard window calls, and its shared state.

use vstd::prelude::*;
use std::sync::Mutex;
use charming::EchartsError;
use charming::Chart;
use charming::component::Axis;
use charming::element::AxisType;
use charming::series::Line;
use charming::renderer::HtmlRenderer;

verus! {

#[verifier::external_type_specification]
#[verifier::external_body]
#[verifier::reject_recursive_types(T)]
pub struct ExMutex<T: ?Sized>(Mutex<T>);

#[verifier::external_type_specification]
#[verifier::external_body]
pub struct ExEchartsError(EchartsError);

/// The readings the window shows, and whether the serial port is being read.
pub struct Data {
    packet: Vec<Vec<i32>>,
    is_listening: bool,
}

/// The window's state, shared between its commands.
pub struct AppData(pub Mutex<Data>);

/// The test command of the window: the number it is given, plus ten.
pub fn set_number(number: i32) -> (r: i32)
    requires
        number <= i32::MAX - 10,
    ensures
        r == number + 10,
{
    number + 10
}

/// The HTML page that charming renders for a line chart titled `title`, of
/// `width` by `height` pixels, with `categories` along the x axis and one value per
/// category; `None` where the rendering fails.
pub uninterp spec fn line_chart_html(
    title: Seq<char>,
    width: u64,
    height: u64,
    categories: Seq<Seq<char>>,
    values: Seq<i32>,
) -> Option<Seq<char>>;

/// Builds a charming `Chart` with a category x axis holding `categories`, a value y
/// axis and one line series of `values`, and renders it with `HtmlRenderer::new(title,
/// width, height).render`. What the page holds is only named here, as
/// `line_chart_html` of the arguments; the renderer's output depends on nothing
/// else (it fills a fixed template with these values and the default theme).
#[verifier::external_body]
fn render_line_chart(
    title: &str,
    width: u64,
    height: u64,
    categories: &Vec<String>,
    values: &Vec<i32>,
) -> (res: Result<String, EchartsError>)
    ensures
        match res {
            Ok(html) => line_chart_html(
                title@,
                width,
                height,
                categories@.map_values(|c: String| c@),
                values@,
            ) == Some(html@),
            Err(_) => line_chart_html(
                title@,
                width,
                height,
                categories@.map_values(|c: String| c@),
                values@,
            ) is None,
        },
{
    let chart = Chart::new().x_axis(
        Axis::new().type_(AxisType::Category).data(categories.clone()),
    ).y_axis(Axis::new().type_(AxisType::Value)).series(Line::new().data(values.clone()));
    HtmlRenderer::new(title, width, height).render(&chart)
}

/// The days of the week, as the chart's categories.
pub open spec fn week_days() -> Seq<Seq<char>> {
    seq!["Mon"@, "Tue"@, "Wed"@, "Thu"@, "Fri"@, "Sat"@, "Sun"@]
}

/// The sample values the chart shows, one per day.
pub open spec fn week_values() -> Seq<i32> {
    seq![150i32, 230, 224, 218, 135, 147, 260]
}

/// The sample chart plots, day by day: Monday 150, Tuesday 230, Wednesday 224,
/// Thursday 218, Friday 135, Saturday 147 and Sunday 260.
pub proof fn lemma_sample_chart_data()
    ensures
        week_days().len() == 7,
        week_values().len() == 7,
        week_days()[0] == "Mon"@ && week_values()[0] == 150,
        week_days()[1] == "Tue"@ && week_values()[1] == 230,
        week_days()[2] == "Wed"@ && week_values()[2] == 224,
        week_days()[3] == "Thu"@ && week_values()[3] == 218,
        week_days()[4] == "Fri"@ && week_values()[4] == 135,
        week_days()[5] == "Sat"@ && week_values()[5] == 147,
        week_days()[6] == "Sun"@ && week_values()[6] == 260,
{
}

/// The chart could not be rendered.
#[derive(Clone, Copy, Debug, PartialEq, Eq, Structural)]
pub enum ChartError {
    Rendering,
}

/// The window's sample chart: a line over the days of the week, titled "testing",
/// 800 by 800 pixels, as an HTML page.
pub fn get_chart() -> (res: Result<String, ChartError>)
    ensures
        match res {
            Ok(html) => line_chart_html(
                "testing"@,
                800,
                800,
                seq!["Mon"@, "Tue"@, "Wed"@, "Thu"@, "Fri"@, "Sat"@, "Sun"@],
                seq![150i32, 230, 224, 218, 135, 147, 260],
            ) == Some(html@),
            Err(_) => line_chart_html(
                "testing"@,
                800,
                800,
                seq!["Mon"@, "Tue"@, "Wed"@, "Thu"@, "Fri"@, "Sat"@, "Sun"@],
                seq![150i32, 230, 224, 218, 135, 147, 260],
            ) is None,
        },
{
    let categories: Vec<String> = vec![
        "Mon".to_owned(),
        "Tue".to_owned(),
        "Wed".to_owned(),
        "Thu".to_owned(),
        "Fri".to_owned(),
        "Sat".to_owned(),
        "Sun".to_owned(),
    ];
    let values: Vec<i32> = vec![150, 230, 224, 218, 135, 147, 260];
    proof {
        assert(categories@.map_values(|c: String| c@) =~= week_days());
        assert(values@ =~= week_values());
    }
    match render_line_chart("testing", 800, 800, &categories, &values) {
        Ok(html) => Ok(html),
        Err(_) => Err(ChartError::Rendering),
    }
}

} // verus!
