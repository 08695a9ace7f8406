use vstd::prelude::*;

verus! {

/// The keys and modifiers the window reports for a frame.
#[derive(Debug, Clone, Copy, PartialEq, Eq, Structural)]
pub struct ShortcutInput {
    /// A text field has the keyboard; shortcuts are off.
    pub text_input_active: bool,
    /// The command modifier (Ctrl, or Cmd on macOS) is held.
    pub command: bool,
    pub shift: bool,
    pub home_pressed: bool,
    pub num0_pressed: bool,
    pub z_pressed: bool,
    pub y_pressed: bool,
    pub n_pressed: bool,
    pub o_pressed: bool,
    pub s_pressed: bool,
}

/// What a keyboard shortcut asks for.
#[derive(Debug, Clone, Copy, PartialEq, Eq, Structural)]
pub enum ShortcutAction {
    /// Zoom back to 100% and re-center.
    ResetView,
    /// Re-center without changing the zoom.
    ResetPan,
    Undo,
    Redo,
    NewDocument,
    OpenDocument,
    SaveDocumentAs,
    SaveDocument,
}

/// `a` when `cond` holds, else nothing.
pub open spec fn when(cond: bool, a: ShortcutAction) -> Seq<ShortcutAction> {
    if cond {
        seq![a]
    } else {
        Seq::empty()
    }
}

/// The actions the keys ask for, in the order they are carried out: Command+0
/// resets the view, Home re-centers, Command+Z undoes, Command+Y or
/// Command+Shift+Z redoes (so Command+Shift+Z undoes and then redoes),
/// Command+N, Command+O open a new or existing document, and Command+Shift+S
/// saves under a new name, taking the place of Command+S. Nothing happens while a
/// text field has the keyboard.
pub open spec fn spec_shortcut_actions(i: ShortcutInput) -> Seq<ShortcutAction> {
    if i.text_input_active {
        Seq::empty()
    } else {
        let save_as = i.command && i.shift && i.s_pressed;
        let save = i.command && i.s_pressed;
        when(i.command && i.num0_pressed, ShortcutAction::ResetView) + when(
            i.home_pressed,
            ShortcutAction::ResetPan,
        ) + when(i.command && i.z_pressed, ShortcutAction::Undo) + when(
            (i.command && i.y_pressed) || (i.command && i.shift && i.z_pressed),
            ShortcutAction::Redo,
        ) + when(i.command && i.n_pressed, ShortcutAction::NewDocument) + when(
            i.command && i.o_pressed,
            ShortcutAction::OpenDocument,
        ) + when(save_as, ShortcutAction::SaveDocumentAs) + when(
            !save_as && save,
            ShortcutAction::SaveDocument,
        )
    }
}

fn push_when(out: &mut Vec<ShortcutAction>, cond: bool, a: ShortcutAction)
    ensures
        final(out)@ == old(out)@ + when(cond, a),
{
    if cond {
        out.push(a);
    }
    assert(out@ =~= old(out)@ + when(cond, a));
}

/// The actions the keys of a frame ask for; see `spec_shortcut_actions`.
pub fn shortcut_actions(input: ShortcutInput) -> (r: Vec<ShortcutAction>)
    ensures
        r@ == spec_shortcut_actions(input),
{
    let mut out: Vec<ShortcutAction> = Vec::new();
    if input.text_input_active {
        return out;
    }
    let cmd = input.command;
    let save_as = cmd && input.shift && input.s_pressed;
    let save = cmd && input.s_pressed;
    assert(out@ =~= Seq::<ShortcutAction>::empty());
    push_when(&mut out, cmd && input.num0_pressed, ShortcutAction::ResetView);
    push_when(&mut out, input.home_pressed, ShortcutAction::ResetPan);
    push_when(&mut out, cmd && input.z_pressed, ShortcutAction::Undo);
    push_when(
        &mut out,
        (cmd && input.y_pressed) || (cmd && input.shift && input.z_pressed),
        ShortcutAction::Redo,
    );
    push_when(&mut out, cmd && input.n_pressed, ShortcutAction::NewDocument);
    push_when(&mut out, cmd && input.o_pressed, ShortcutAction::OpenDocument);
    push_when(&mut out, save_as, ShortcutAction::SaveDocumentAs);
    push_when(&mut out, !save_as && save, ShortcutAction::SaveDocument);
    out
}

} // verus!
