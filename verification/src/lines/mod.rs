pub mod line_list;
