pub mod computed_style;
pub mod layout_bounds;
pub mod layout_object;
pub mod layout_view;
pub mod line_wrap;
