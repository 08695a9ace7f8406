use super::stroke::{DrawStroke, StrokeView};
use vstd::prelude::*;

verus! {

/// Width in pixels of a freshly created canvas.
pub const DEFAULT_CANVAS_WIDTH: u32 = 3200;

/// Height in pixels of a freshly created canvas.
pub const DEFAULT_CANVAS_HEIGHT: u32 = 2000;

/// One sheet of a document.
#[derive(Debug, Clone)]
pub struct PaintTab {
    pub id: u64,
    pub title: String,
    pub canvas_width: u32,
    pub canvas_height: u32,
    pub draw_strokes: Vec<DrawStroke>,
}

/// The mathematical content of a tab.
pub struct TabView {
    pub id: u64,
    pub title: Seq<char>,
    pub canvas_width: u32,
    pub canvas_height: u32,
    pub strokes: Seq<StrokeView>,
}

/// The views of a list of strokes.
pub open spec fn strokes_view(strokes: Seq<DrawStroke>) -> Seq<StrokeView> {
    strokes.map_values(|s: DrawStroke| s@)
}

impl View for PaintTab {
    type V = TabView;

    open spec fn view(&self) -> TabView {
        TabView {
            id: self.id,
            title: self.title@,
            canvas_width: self.canvas_width,
            canvas_height: self.canvas_height,
            strokes: strokes_view(self.draw_strokes@),
        }
    }
}

impl PaintTab {
    /// An empty tab of the default canvas size.
    pub fn new(id: u64, title: String) -> (r: PaintTab)
        ensures
            r@ == (TabView {
                id,
                title: title@,
                canvas_width: DEFAULT_CANVAS_WIDTH,
                canvas_height: DEFAULT_CANVAS_HEIGHT,
                strokes: Seq::empty(),
            }),
    {
        let r = PaintTab {
            id,
            title,
            canvas_width: DEFAULT_CANVAS_WIDTH,
            canvas_height: DEFAULT_CANVAS_HEIGHT,
            draw_strokes: Vec::new(),
        };
        assert(strokes_view(r.draw_strokes@) =~= Seq::<StrokeView>::empty());
        r
    }
}

} // verus!
