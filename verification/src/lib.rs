pub mod asset_laws;
pub mod byte_offset;
pub mod folder_cache;
pub mod folder_listing;
pub mod git;
pub mod git_laws;
pub mod image_asset;
pub mod index_laws;
pub mod index_run;
pub mod link_laws;
pub mod link_parser;
pub mod link_path;
pub mod link_rewrite;
pub mod link_target;
pub mod listing_laws;
pub mod markdown;
pub mod move_laws;
pub mod note_files;
pub mod note_meta;
pub mod note_moves;
pub mod ordering;
pub mod path_laws;
pub mod relocation_laws;
pub mod rename_laws;
pub mod rewrite_laws;
pub mod search_index;
pub mod string_map;
pub mod target_laws;
pub mod text;
pub mod text_laws;
pub mod vault_laws;
pub mod vault_lookup;
pub mod vault_path;
