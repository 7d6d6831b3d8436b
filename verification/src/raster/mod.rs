pub mod raster_circle;
