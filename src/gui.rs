pub mod widgets;
