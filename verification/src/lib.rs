//! The verified core of a software-defined radio receiver.
pub mod audio;
pub mod bandplan;
pub mod decode;
pub mod dsp;
pub mod panorama;
pub mod radio;
pub mod rds;
pub mod receiver;
pub mod record;
pub mod ring;
pub mod scan;
pub mod schedule;
pub mod settings;
pub mod si570;
pub mod source;
pub mod text;
pub mod tuner;
