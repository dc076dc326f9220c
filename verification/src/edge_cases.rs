//! Rendering functions whose calls are easily mistaken for others: one whose
//! only calls stand in comments, and a local namesake of a common function.

use vstd::prelude::*;
use crate::render::RenderCtx;

verus! {

/// Renders one line; the calls in its comments do not run.
pub fn commented_out_call(ctx: &mut RenderCtx)
    ensures
        final(ctx)@ == old(ctx)@.push("only this line runs"@),
{
    // render_text(ctx, "this is a comment, not a real call");
    // crate::text::render::render_text(ctx, "also commented");
    ctx.push_line("only this line runs");
}

/// Renders the line that marks this function, whatever the text.
pub fn render_text(ctx: &mut RenderCtx, _text: &str)
    ensures
        final(ctx)@ == old(ctx)@.push("this is a DIFFERENT render_text, not the one in render.rs"@),
{
    ctx.push_line("this is a DIFFERENT render_text, not the one in render.rs");
}

/// Calls this module's `render_text`.
pub fn calls_local_render_text(ctx: &mut RenderCtx)
    ensures
        final(ctx)@ == old(ctx)@.push("this is a DIFFERENT render_text, not the one in render.rs"@),
{
    render_text(ctx, "calls edge_cases::render_text, not render::render_text");
}

} // verus!
