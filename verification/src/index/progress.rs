//! Progress of a run: when a line is due, and what is written for it.

use vstd::prelude::*;
use crate::text::{join_texts, joined, lowered, lowered_text, same_text, trim_text, trimmed};
use crate::lookup::{lemma_take_next, put};

verus! {

/// How progress is rendered.
#[derive(Clone, Copy, Debug, PartialEq, Eq, Structural)]
pub enum ProgressStyle {
    /// One line, rewritten in place, for a terminal.
    InPlace,
    /// One line per update, less often, for a pipe or a file.
    Plain,
    /// Nothing is written.
    Off,
}

/// The style that a setting and the kind of output ask for. A setting that
/// is not known counts as none.
pub open spec fn style_for(setting: Seq<char>, terminal: bool) -> ProgressStyle {
    let word = lowered(trimmed(setting));
    if word == "tty"@ {
        ProgressStyle::InPlace
    } else if word == "plain"@ {
        ProgressStyle::Plain
    } else if word == "off"@ || word == "none"@ || word == "0"@ {
        ProgressStyle::Off
    } else if terminal {
        ProgressStyle::InPlace
    } else {
        ProgressStyle::Plain
    }
}

impl ProgressStyle {
    /// Decides the style of a run from the setting, empty where there is
    /// none, and from whether the output is a terminal.
    pub fn detect(setting: &str, terminal: bool) -> (r: Self)
        ensures
            r == style_for(setting@, terminal),
    {
        let bare = trim_text(setting);
        let word = lowered_text(bare.as_str());
        let word = word.as_str();
        if same_text(word, "tty") {
            ProgressStyle::InPlace
        } else if same_text(word, "plain") {
            ProgressStyle::Plain
        } else if same_text(word, "off") || same_text(word, "none") || same_text(word, "0") {
            ProgressStyle::Off
        } else if terminal {
            ProgressStyle::InPlace
        } else {
            ProgressStyle::Plain
        }
    }
}

/// Is a line due after some files and some whole milliseconds?
pub open spec fn is_due(style: ProgressStyle, files: nat, millis: nat) -> bool {
    match style {
        ProgressStyle::Off => false,
        ProgressStyle::InPlace => (files >= 25 && millis >= 100) || millis >= 2000,
        ProgressStyle::Plain => files >= 500 || millis >= 10000,
    }
}

/// Is a line due? It is after enough files or enough time, whichever comes
/// first; in place there is a floor of a tenth of a second, so that a warm
/// cache does not repaint the terminal without pause.
pub fn progress_tick_due(style: ProgressStyle, files_since_last: usize, millis_since_last: u64) -> (r: bool)
    ensures
        r == is_due(style, files_since_last as nat, millis_since_last as nat),
{
    match style {
        ProgressStyle::Off => false,
        ProgressStyle::InPlace => (files_since_last >= 25 && millis_since_last >= 100) || millis_since_last >= 2000,
        ProgressStyle::Plain => files_since_last >= 500 || millis_since_last >= 10000,
    }
}

/// What to write for a line, and whether a rewritable line stands on the
/// terminal afterwards.
///
/// A passing line is rewritten in place on a terminal; any other line first
/// clears what stands there.
pub open spec fn written(style: ProgressStyle, open: bool, text: Seq<char>, passing: bool) -> (Seq<char>, bool) {
    match style {
        ProgressStyle::Off => (Seq::empty(), open),
        ProgressStyle::Plain => (text + "\n"@, open),
        ProgressStyle::InPlace => if passing {
            ("\r"@ + text + "\u{1b}[K"@, true)
        } else if open {
            ("\r\u{1b}[K"@ + text + "\n"@, false)
        } else {
            (text + "\n"@, false)
        },
    }
}

/// The reporter of a run, but for its clock.
#[derive(Clone, Debug)]
pub struct Progress {
    pub style: ProgressStyle,
    pub phase_name: Option<String>,
    /// The phases that are over, each with its time in words.
    pub phases: Vec<(String, String)>,
    pub last_tick_files: usize,
    /// Does a rewritable line stand on the terminal?
    pub line_open: bool,
}

/// The last line of a run: its time, and that of each phase.
pub open spec fn closing_line(total: Seq<char>, phases: Seq<(Seq<char>, Seq<char>)>) -> Seq<char> {
    let split = joined(phases.map_values(|p: (Seq<char>, Seq<char>)| p.0 + " "@ + p.1), ", "@);
    if split.len() == 0 {
        "[codegraph] done in "@ + total
    } else {
        "[codegraph] done in "@ + total + " ("@ + split + ")"@
    }
}

impl Progress {
    /// A reporter with a style, before the first phase.
    pub fn with_style(style: ProgressStyle) -> (r: Self)
        ensures
            r.style == style,
            r.phase_name is None,
            r.phases@.len() == 0,
            r.last_tick_files == 0,
            !r.line_open,
    {
        Progress { style, phase_name: None, phases: Vec::new(), last_tick_files: 0, line_open: false }
    }

    /// A reporter in the style that a setting and the kind of output ask for.
    pub fn new(setting: &str, terminal: bool) -> (r: Self)
        ensures
            r.style == style_for(setting@, terminal),
            r.phase_name is None,
            r.phases@.len() == 0,
            r.last_tick_files == 0,
            !r.line_open,
    {
        Self::with_style(ProgressStyle::detect(setting, terminal))
    }

    /// What to write for one line.
    pub fn emit(&mut self, text: &str, passing: bool) -> (r: String)
        ensures
            r@ == written(old(self).style, old(self).line_open, text@, passing).0,
            *final(self) == (Progress {
                line_open: written(old(self).style, old(self).line_open, text@, passing).1,
                ..*old(self)
            }),
    {
        match self.style {
            ProgressStyle::Off => {
                let r = String::new();
                assert(r@ =~= Seq::empty());
                r
            },
            ProgressStyle::Plain => {
                let mut r = text.to_owned();
                r.append("\n");
                r
            },
            ProgressStyle::InPlace => {
                if passing {
                    self.line_open = true;
                    let mut r = "\r".to_owned();
                    r.append(text);
                    r.append("\u{1b}[K");
                    r
                } else if self.line_open {
                    self.line_open = false;
                    let mut r = "\r\u{1b}[K".to_owned();
                    r.append(text);
                    r.append("\n");
                    r
                } else {
                    let mut r = text.to_owned();
                    r.append("\n");
                    r
                }
            },
        }
    }

    /// What to write for a standalone line.
    pub fn note(&mut self, text: &str) -> (r: String)
        ensures
            r@ == written(old(self).style, old(self).line_open, "[codegraph] "@ + text@, false).0,
            *final(self) == (Progress {
                line_open: written(old(self).style, old(self).line_open, "[codegraph] "@ + text@, false).1,
                ..*old(self)
            }),
    {
        let mut line = "[codegraph] ".to_owned();
        line.append(text);
        self.emit(line.as_str(), false)
    }

    /// Ends the phase in flight, which took a time.
    pub fn close_phase(&mut self, took: &str)
        ensures
            final(self).style == old(self).style,
            final(self).line_open == old(self).line_open,
            final(self).last_tick_files == old(self).last_tick_files,
            final(self).phase_name is None,
            final(self).phases.deep_view() == match old(self).phase_name {
                Some(name) => old(self).phases.deep_view().push((name@, took@)),
                None => old(self).phases.deep_view(),
            },
    {
        match self.phase_name.take() {
            Some(name) => {
                let entry = (name, took.to_owned());
                assert(entry.deep_view() == (name@, took@));
                put(&mut self.phases, entry);
            },
            None => {},
        }
    }

    /// Ends the phase in flight and begins another, at a time of the run.
    pub fn phase(&mut self, name: &str, took: &str, at: &str) -> (r: String)
        ensures
            final(self).style == old(self).style,
            final(self).phase_name.deep_view() == Some(name@),
            final(self).last_tick_files == 0,
            final(self).phases.deep_view() == match old(self).phase_name {
                Some(before) => old(self).phases.deep_view().push((before@, took@)),
                None => old(self).phases.deep_view(),
            },
            (r@, final(self).line_open) == written(
                old(self).style,
                old(self).line_open,
                "[codegraph] "@ + name@ + " starting at "@ + at@,
                false,
            ),
    {
        self.close_phase(took);
        self.last_tick_files = 0;
        self.phase_name = Some(name.to_owned());
        let mut line = "[codegraph] ".to_owned();
        line.append(name);
        line.append(" starting at ");
        line.append(at);
        self.emit(line.as_str(), false)
    }

    /// Is a line due once `done` files are done? If so, they are what the
    /// next line is counted from.
    pub fn tick(&mut self, done: usize, millis_since_last: u64) -> (r: bool)
        ensures
            r == is_due(
                old(self).style,
                (if done >= old(self).last_tick_files {
                    (done - old(self).last_tick_files) as nat
                } else {
                    0
                }),
                millis_since_last as nat,
            ),
            *final(self) == (Progress {
                last_tick_files: if r {
                    done
                } else {
                    old(self).last_tick_files
                },
                ..*old(self)
            }),
    {
        let files: usize = if done >= self.last_tick_files {
            done - self.last_tick_files
        } else {
            0
        };
        if !progress_tick_due(self.style, files, millis_since_last) {
            return false;
        }
        self.last_tick_files = done;
        true
    }

    /// What to write at the end of a run.
    pub fn finish(&mut self, took: &str, total: &str) -> (r: String)
        ensures
            final(self).phase_name is None,
            final(self).style == old(self).style,
            final(self).phases.deep_view() == match old(self).phase_name {
                Some(name) => old(self).phases.deep_view().push((name@, took@)),
                None => old(self).phases.deep_view(),
            },
            (r@, final(self).line_open) == written(
                old(self).style,
                old(self).line_open,
                closing_line(total@, final(self).phases.deep_view()),
                false,
            ),
    {
        self.close_phase(took);
        let line = render_closing(total, &self.phases);
        self.emit(line.as_str(), false)
    }
}

fn render_closing(total: &str, phases: &Vec<(String, String)>) -> (r: String)
    ensures
        r@ == closing_line(total@, phases.deep_view()),
{
    let ghost want = phases.deep_view().map_values(|p: (Seq<char>, Seq<char>)| p.0 + " "@ + p.1);
    let mut parts: Vec<String> = Vec::new();
    let mut i: usize = 0;
    assert(parts.deep_view() =~= want.take(0));
    while i < phases.len()
        invariant
            i <= phases@.len(),
            want == phases.deep_view().map_values(|p: (Seq<char>, Seq<char>)| p.0 + " "@ + p.1),
            parts.deep_view() == want.take(i as int),
        decreases phases.len() - i,
    {
        proof {
            assert(want.len() == phases@.len());
            lemma_take_next(want, i as int);
            assert(phases.deep_view()[i as int] == phases@[i as int].deep_view());
        }
        let mut part = phases[i].0.as_str().to_owned();
        part.append(" ");
        part.append(phases[i].1.as_str());
        put(&mut parts, part);
        i = i + 1;
    }
    assert(want.take(i as int) =~= want);
    let split = join_texts(&parts, ", ");
    let mut r = "[codegraph] done in ".to_owned();
    r.append(total);
    if !split.as_str().is_empty() {
        r.append(" (");
        r.append(split.as_str());
        r.append(")");
    }
    r
}

/// More files and more time never make a line less due; without progress none is
/// due. In place none is due within a tenth of a second, and one is due after two
/// seconds; in plain lines one is due after ten seconds or five hundred files.
pub proof fn a_line_stays_due(style: ProgressStyle, files: nat, millis: nat, more: nat, later: nat)
    requires
        files <= more,
        millis <= later,
    ensures
        is_due(style, files, millis) ==> is_due(style, more, later),
        !is_due(ProgressStyle::Off, files, millis),
        millis < 100 ==> !is_due(ProgressStyle::InPlace, files, millis),
        millis >= 2000 ==> is_due(ProgressStyle::InPlace, files, millis),
        files < 25 && millis < 2000 ==> !is_due(ProgressStyle::InPlace, files, millis),
        files >= 25 && millis >= 100 ==> is_due(ProgressStyle::InPlace, files, millis),
        files >= 500 || millis >= 10000 <==> is_due(ProgressStyle::Plain, files, millis),
{
}

/// With progress off nothing is written. A line that stays ends with a line break,
/// and leaves none to rewrite where lines are rewritten.
pub proof fn a_line_is_written_whole(style: ProgressStyle, open: bool, text: Seq<char>, passing: bool)
    ensures
        written(ProgressStyle::Off, open, text, passing).0.len() == 0,
        style != ProgressStyle::Off && !(style == ProgressStyle::InPlace && passing) ==> written(style, open, text, passing).0.last()
            == '\n',
        style == ProgressStyle::InPlace ==> written(style, open, text, passing).1 == passing,
        style != ProgressStyle::Off ==> crate::text::has_part(written(style, open, text, passing).0, text),
{
    reveal_strlit("\n");
    reveal_strlit("\r");
    reveal_strlit("\r\u{1b}[K");
    reveal_strlit("\u{1b}[K");
    let w = written(style, open, text, passing).0;
    if style == ProgressStyle::Plain {
        assert(w.subrange(0, text.len() as int) =~= text);
        assert(crate::text::occurs_at(w, text, 0));
    } else if style == ProgressStyle::InPlace {
        let at = if passing {
            1int
        } else if open {
            "\r\u{1b}[K"@.len() as int
        } else {
            0int
        };
        assert(w.subrange(at, at + text.len()) =~= text);
        assert(crate::text::occurs_at(w, text, at));
    }
}

} // verus!
