use vstd::prelude::*;
use vstd::string::StringExecFns;

use super::{Tables, TablesView};

verus! {

/// Where rendered text goes, and in which of two layouts: on one line, or
/// with every item of a list on a line of its own, indented by four spaces
/// for each list around it.
pub struct Printer {
    out: String,
    pretty: bool,
    indent: String,
}

/// A [`Printer`] as a mathematical value.
pub struct PrinterView {
    /// The text written so far.
    pub out: Seq<char>,
    /// Whether the layout is the one with an item on each line.
    pub pretty: bool,
    /// What starts each line at the current depth.
    pub indent: Seq<char>,
}

impl View for Printer {
    type V = PrinterView;

    closed spec fn view(&self) -> PrinterView {
        PrinterView { out: self.out@, pretty: self.pretty, indent: self.indent@ }
    }
}

impl Printer {
    /// A printer with nothing written, at depth zero.
    pub fn new(pretty: bool) -> (f: Self)
        ensures
            f@ == (PrinterView { out: Seq::empty(), pretty, indent: Seq::empty() }),
    {
        Printer { out: String::new(), pretty, indent: String::new() }
    }

    /// Whether the layout is the one with an item on each line.
    pub fn pretty(&self) -> (pretty: bool)
        ensures
            pretty == self@.pretty,
    {
        self.pretty
    }

    /// Writes `text`.
    pub fn write_str(&mut self, text: &str)
        ensures
            final(self)@ == (PrinterView { out: old(self)@.out + text@, ..old(self)@ }),
    {
        self.out.append(text);
    }

    /// Writes what starts a line at the current depth.
    pub fn write_indent(&mut self)
        ensures
            final(self)@ == (PrinterView { out: old(self)@.out + old(self)@.indent, ..old(self)@ }),
    {
        self.out.append(self.indent.as_str());
    }

    /// Goes one list deeper, and returns what started a line before.
    pub fn enter(&mut self) -> (outer: String)
        ensures
            outer@ == old(self)@.indent,
            final(self)@ == (PrinterView { indent: old(self)@.indent + "    "@, ..old(self)@ }),
    {
        let outer = self.indent.clone();
        self.indent.append("    ");
        outer
    }

    /// Comes back to the depth at which `outer` starts a line.
    pub fn leave(&mut self, outer: String)
        ensures
            final(self)@ == (PrinterView { indent: outer@, ..old(self)@ }),
    {
        self.indent = outer;
    }

    /// The text written.
    pub fn finish(self) -> (text: String)
        ensures
            text@ == self@.out,
    {
        self.out
    }
}

/// A value that can be rendered as text, given the tables that its keys
/// refer to.
pub trait Debug: Sized {
    /// Whether this value can be rendered with `tables`: its keys are known
    /// there and it holds only what has a rendering.
    spec fn printable(&self, tables: TablesView) -> bool;

    /// The rendering of this value: on one line, or, where `pretty` holds,
    /// over several lines that start with `indent`.
    spec fn rendered(&self, tables: TablesView, pretty: bool, indent: Seq<char>) -> Seq<char>;

    /// This value together with the tables it is to be rendered with.
    fn debug_with<'data, 'tables>(&'data self, tables: &'tables Tables) -> (with: DebugWith<
        'data,
        'tables,
        Self,
    >)
        ensures
            with.0 == self,
            with.1 == tables,
    {
        DebugWith(self, tables)
    }

    /// Decides whether this value can be rendered with `tables`.
    fn is_printable(&self, tables: &Tables) -> (b: bool)
        requires
            tables.wf(),
        ensures
            b == self.printable(tables@),
    ;

    /// Writes the rendering of this value to `f`, in the layout and at the
    /// depth of `f`.
    fn fmt(&self, tables: &Tables, f: &mut Printer)
        requires
            tables.wf(),
            self.printable(tables@),
        ensures
            final(f)@ == (PrinterView {
                out: old(f)@.out + self.rendered(tables@, old(f)@.pretty, old(f)@.indent),
                ..old(f)@
            }),
    ;
}

/// A value and the tables to render it with.
pub struct DebugWith<'data, 'tables, T>(pub &'data T, pub &'tables Tables);

impl<'data, 'tables, T: Debug> DebugWith<'data, 'tables, T> {
    /// The rendering on one line.
    pub fn compact(&self) -> (text: String)
        requires
            self.1.wf(),
            self.0.printable(self.1@),
        ensures
            text@ == self.0.rendered(self.1@, false, Seq::empty()),
    {
        let mut f = Printer::new(false);
        self.0.fmt(self.1, &mut f);
        proof {
            assert(Seq::<char>::empty() + self.0.rendered(self.1@, false, Seq::empty())
                =~= self.0.rendered(self.1@, false, Seq::empty()));
        }
        f.finish()
    }

    /// The rendering with every item of a list on a line of its own.
    pub fn pretty(&self) -> (text: String)
        requires
            self.1.wf(),
            self.0.printable(self.1@),
        ensures
            text@ == self.0.rendered(self.1@, true, Seq::empty()),
    {
        let mut f = Printer::new(true);
        self.0.fmt(self.1, &mut f);
        proof {
            assert(Seq::<char>::empty() + self.0.rendered(self.1@, true, Seq::empty())
                =~= self.0.rendered(self.1@, true, Seq::empty()));
        }
        f.finish()
    }
}

} // verus!
