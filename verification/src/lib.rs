pub mod calendar;
pub mod cells;
pub mod date;
pub mod html;
pub mod i18n;
pub mod ics;
pub mod markdown;
pub mod report;
pub mod text;
