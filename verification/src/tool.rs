//! What the drawing tools have in common, and which tools there are.
use crate::affected_layer::AffectedLayer;
use vstd::prelude::*;
use vstd::std_specs::convert::IntoSpec;
use vstd::string::*;

verus! {

/// Whether a tool adds pixels or takes them away.
#[derive(Debug, Clone, Copy, PartialEq, Eq, Structural, Default)]
pub enum Mode {
    #[default]
    Insert,
    Clear,
}

/// The settings of a drawing tool.
#[derive(Debug, Clone, Copy, PartialEq, Eq, Structural)]
pub struct DrawTool {
    pub mode: Mode,
    pub layer: AffectedLayer,
}

impl Default for DrawTool {
    fn default() -> (tool: Self)
        ensures
            tool == (DrawTool { mode: Mode::Insert, layer: AffectedLayer::Unspecified }),
    {
        DrawTool { mode: Mode::Insert, layer: AffectedLayer::Unspecified }
    }
}

impl DrawTool {
    /// Sets the layers that the tool draws on. The settings are handed out for more changes.
    pub fn set_layer<L: Into<AffectedLayer>>(&mut self, layer: L) -> (tool: &mut Self)
        ensures
            tool.mode == old(self).mode,
            call_ensures(<L as Into<AffectedLayer>>::into, (layer,), tool.layer),
            L::obeys_into_spec() ==> tool.layer == layer.into_spec(),
            *final(self) == *final(tool),
    {
        self.layer = layer.into();
        self
    }

    /// Sets what the tool does. The settings are handed out for more changes.
    pub fn set_mode(&mut self, mode: Mode) -> (tool: &mut Self)
        ensures
            *tool == (DrawTool { mode, layer: old(self).layer }),
            *final(self) == *final(tool),
    {
        self.mode = mode;
        self
    }
}

/// A tool as it is set up at first.
#[derive(Debug, Clone, Copy, PartialEq, Eq, Structural)]
pub enum ToolSetup {
    Pan,
    Rect(Mode),
    /// The flag says whether a drag outside the selection moves the view.
    Drag(bool),
    Brush(Mode),
}

/// Whether the list holds, at `i`, the tool `setup` under `name`.
pub open spec fn offers(
    tools: Seq<(String, ToolSetup)>,
    i: int,
    name: Seq<char>,
    setup: ToolSetup,
) -> bool {
    tools[i].0@ == name && tools[i].1 == setup
}

/// The tools that are offered, in order, with their names.
pub fn default_tools() -> (tools: Vec<(String, ToolSetup)>)
    ensures
        tools@.len() == 8,
        offers(tools@, 0, "Pan"@, ToolSetup::Pan),
        offers(tools@, 1, "Pan2"@, ToolSetup::Pan),
        offers(tools@, 2, "Rect"@, ToolSetup::Rect(Mode::Insert)),
        offers(tools@, 3, "PanDrag"@, ToolSetup::Drag(true)),
        offers(tools@, 4, "RectDrag"@, ToolSetup::Drag(false)),
        offers(tools@, 5, "Brush"@, ToolSetup::Brush(Mode::Insert)),
        offers(tools@, 6, "Brush clear"@, ToolSetup::Brush(Mode::Clear)),
        offers(tools@, 7, "Rect clear"@, ToolSetup::Rect(Mode::Clear)),
{
    let mut tools: Vec<(String, ToolSetup)> = Vec::new();
    tools.push(("Pan".to_owned(), ToolSetup::Pan));
    tools.push(("Pan2".to_owned(), ToolSetup::Pan));
    tools.push(("Rect".to_owned(), ToolSetup::Rect(Mode::Insert)));
    tools.push(("PanDrag".to_owned(), ToolSetup::Drag(true)));
    tools.push(("RectDrag".to_owned(), ToolSetup::Drag(false)));
    tools.push(("Brush".to_owned(), ToolSetup::Brush(Mode::Insert)));
    tools.push(("Brush clear".to_owned(), ToolSetup::Brush(Mode::Clear)));
    tools.push(("Rect clear".to_owned(), ToolSetup::Rect(Mode::Clear)));
    tools
}

/// A tool that is offered stands in the list under its name and as it is set up.
pub proof fn offered_tools_are_listed(
    tools: Seq<(String, ToolSetup)>,
    i: int,
    name: Seq<char>,
    setup: ToolSetup,
)
    ensures
        offers(tools, i, name, setup) <==> tools[i].0@ == name && tools[i].1 == setup,
{
}

} // verus!
