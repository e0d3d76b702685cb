//! A cache of forecast temperatures for one location. The provider serves
//! a fixed five-day forecast at three-hour spacing; the cache fetches only
//! time it has not fetched before, keeps every observation by timestamp,
//! and resamples them to one-minute, five-minute or hourly slots depending
//! on the span asked for.
//!
//! Fetching is left to the caller: `RangeCache::begin_query` either answers
//! from what is held or names the missing spans, and
//! `RangeCache::complete_query` takes what the provider returned.

pub mod granularity;
pub mod intervals;
pub mod store;
pub mod resample;
pub mod cache;
