//! The tool's configuration surface: raw arguments and the settings they
//! turn into.

use vstd::prelude::*;

verus! {

/// Whether benchmarks are grouped by source file or by module name.
#[derive(Debug, PartialEq, Eq, Structural, Clone, Copy)]
pub enum CompareBy {
    File,
    Module,
}

/// The file format of an emitted chart.
#[derive(Debug, PartialEq, Eq, Structural, Clone, Copy)]
pub enum OutputFormat {
    Pdf,
    Eps,
    Png,
    Svg,
}

/// The file extension of an output format.
pub open spec fn format_ext(f: OutputFormat) -> Seq<char> {
    match f {
        OutputFormat::Pdf => "pdf"@,
        OutputFormat::Eps => "eps"@,
        OutputFormat::Png => "png"@,
        OutputFormat::Svg => "svg"@,
    }
}

impl OutputFormat {
    /// The format's file extension.
    pub fn extension(&self) -> (r: String)
        ensures
            r@ == format_ext(*self),
    {
        match *self {
            OutputFormat::Pdf => "pdf".to_owned(),
            OutputFormat::Eps => "eps".to_owned(),
            OutputFormat::Png => "png".to_owned(),
            OutputFormat::Svg => "svg".to_owned(),
        }
    }
}

/// Which side of a comparison is worth showing.
#[derive(Debug, PartialEq, Eq, Structural, Clone, Copy)]
pub enum Show {
    Regressions,
    Improvements,
    Both,
}

/// How a table compares: the first two files, or two named modules.
#[derive(Debug, PartialEq, Eq, Clone)]
pub enum TableCompareBy {
    File,
    Module(String, String),
}

/// Settings of the tabular report.
#[derive(Debug, Clone)]
pub struct TableSettings {
    pub compare_by: TableCompareBy,
    pub out_file: Option<String>,
    pub variance: bool,
    pub threshold: Option<u8>,
    pub show: Show,
    pub strip_fst: Option<String>,
    pub strip_snd: Option<String>,
    pub color: bool,
}

/// Settings of the chart output.
#[derive(Debug, PartialEq, Eq, Clone)]
pub struct PlotSettings {
    pub compare_by: CompareBy,
    pub format: OutputFormat,
    pub color: bool,
}

/// What the tool is asked to produce.
#[derive(Debug, Clone)]
pub enum ToolMode {
    Table(TableSettings),
    Plot(PlotSettings),
}

/// The full configuration: the sources to read and what to do with them.
#[derive(Debug, Clone)]
pub struct Settings {
    pub files: Vec<String>,
    pub tool_mode: ToolMode,
}

/// The grouping a tool mode asks for.
pub open spec fn spec_compare_by(m: ToolMode) -> CompareBy {
    match m {
        ToolMode::Table(s) => match s.compare_by {
            TableCompareBy::File => CompareBy::File,
            TableCompareBy::Module(_, _) => CompareBy::Module,
        },
        ToolMode::Plot(s) => s.compare_by,
    }
}

impl ToolMode {
    /// The grouping this mode asks for.
    pub fn get_compare_by(&self) -> (r: CompareBy)
        ensures
            r == spec_compare_by(*self),
    {
        match *self {
            ToolMode::Table(ref settings) => {
                match settings.compare_by {
                    TableCompareBy::File => CompareBy::File,
                    TableCompareBy::Module(_, _) => CompareBy::Module,
                }
            },
            ToolMode::Plot(ref settings) => settings.compare_by,
        }
    }
}

/// The show mode selected by the two flags; both or neither select `Both`.
pub open spec fn spec_show(regressions: bool, improvements: bool) -> Show {
    if regressions && !improvements {
        Show::Regressions
    } else if !regressions && improvements {
        Show::Improvements
    } else {
        Show::Both
    }
}

/// The raw command-line arguments.
#[derive(Debug, Clone)]
pub struct Args {
    pub cmd_table: bool,
    pub cmd_plot: bool,
    pub arg_file: Vec<String>,
    pub flag_by_module: bool,
    pub flag_no_color: bool,
    pub flag_output: Option<String>,
    pub flag_variance: bool,
    pub flag_threshold: Option<u8>,
    pub flag_regressions: bool,
    pub flag_improvements: bool,
    pub flag_strip_fst: Option<String>,
    pub flag_strip_snd: Option<String>,
    pub flag_by: CompareBy,
    pub flag_format: OutputFormat,
}

impl Args {
    /// Turns the raw arguments into settings. With `--by-module`, the
    /// first two positional arguments are the module names and the rest
    /// are the files; otherwise all of them are files.
    pub fn into_settings(self) -> (r: Settings)
        requires
            self.flag_by_module ==> self.arg_file@.len() >= 2,
        ensures
            r.files@ == if self.flag_by_module {
                self.arg_file@.skip(2)
            } else {
                self.arg_file@
            },
            self.cmd_plot ==> r.tool_mode == ToolMode::Plot(
                (PlotSettings {
                    compare_by: self.flag_by,
                    format: self.flag_format,
                    color: !self.flag_no_color,
                }),
            ),
            !self.cmd_plot ==> (r.tool_mode matches ToolMode::Table(t) && t.compare_by == (if self
                .flag_by_module {
                TableCompareBy::Module(self.arg_file@[0], self.arg_file@[1])
            } else {
                TableCompareBy::File
            }) && t.out_file == self.flag_output && t.variance == self.flag_variance && t.threshold
                == self.flag_threshold && t.show == spec_show(
                self.flag_regressions,
                self.flag_improvements,
            ) && t.strip_fst == self.flag_strip_fst && t.strip_snd == self.flag_strip_snd && t.color
                == !self.flag_no_color),
    {
        let (files, mut arg_name): (Vec<String>, Vec<String>) = if self.flag_by_module {
            let mut names = self.arg_file;
            let rest = names.split_off(2);
            (rest, names)
        } else {
            (self.arg_file, Vec::new())
        };
        let tool_mode = if self.cmd_plot {
            ToolMode::Plot(
                PlotSettings {
                    compare_by: self.flag_by,
                    format: self.flag_format,
                    color: !self.flag_no_color,
                },
            )
        } else {
            let compare_by = if self.flag_by_module {
                let n0 = arg_name.remove(0);
                let n1 = arg_name.remove(0);
                TableCompareBy::Module(n0, n1)
            } else {
                TableCompareBy::File
            };
            ToolMode::Table(
                TableSettings {
                    compare_by,
                    out_file: self.flag_output,
                    variance: self.flag_variance,
                    threshold: self.flag_threshold,
                    show: if self.flag_regressions && !self.flag_improvements {
                        Show::Regressions
                    } else if !self.flag_regressions && self.flag_improvements {
                        Show::Improvements
                    } else {
                        Show::Both
                    },
                    strip_fst: self.flag_strip_fst,
                    strip_snd: self.flag_strip_snd,
                    color: !self.flag_no_color,
                },
            )
        };
        Settings { files, tool_mode }
    }
}

} // verus!
