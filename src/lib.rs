pub mod record;
pub mod align;
pub mod compare;
pub mod dilute;
pub mod augment;
pub mod disorder;
pub mod factor;
pub mod timescale;
