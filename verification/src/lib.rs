//! A small boolean filter language over flat key/value attribute sets:
//! the expression tree, its parser and canonical serializer, the evaluator,
//! and schema validation with a fixpoint repair pass, together with the
//! record types of a student portal that are described by those attributes.
pub mod ads;
pub mod attr_text;
pub mod class;
pub mod comments;
pub mod department;
pub mod events;
pub mod friends;
pub mod group;
pub mod group_desc;
pub mod group_descriptor;
pub mod group_filter;
pub mod groups;
pub mod language;
pub mod location;
pub mod parsing;
pub mod promotion;
pub mod round_trip;
pub mod serialize;
pub mod text;
pub mod user_desc;
pub mod user_groups;
pub mod user_info;

pub use ads::{AdContentType, AdRecord};
pub use attr_text::{
    attrs_text,
    attrs_wf,
    entry_text,
    lemma_attrs_round_trip,
    opt_prepend,
    sp_attr_entries,
    sp_parse_seg,
    sp_read_attrs,
    sp_seg_end,
};
pub use class::{Class, class_code, class_from_code};
pub use comments::Comment;
pub use department::{Department, department_code, department_from_code};
pub use events::{Event, EventKind};
pub use friends::{FriendLists, FriendRequestIncoming, FriendRequestOutgoing};
pub use group::Group;
pub use group_desc::GroupDesc;
pub use group_descriptor::{
    GroupDescriptor,
    IssueModel,
    ValidationIssue,
    entries_sorted,
    entry_issues,
    entry_required,
    entry_views,
    issue_views,
    lemma_needs_correction_characterized,
    lemma_sweep_all_required,
    lemma_sweep_idempotent,
    lemma_sweep_subset,
    lemma_unknown_always_reported,
    map_of,
    name_view,
    schema_has_key,
    sp_key_required,
    sp_needs_correction,
    sp_sweep,
    sp_validate,
    value_admissible,
};
pub use group_filter::{FilterModel, GroupFilter, sat};
pub use groups::{Groups, groups_overlap};
pub use language::{Language, language_code, language_from_code};
pub use location::{Building, Level, Location, building_name, level_name};
pub use parsing::{ParseError, read_whole_as_filter, sp_read_whole};
pub use promotion::{Promotion, promotion_code, promotion_from_code};
pub use round_trip::{filter_equiv, fmt_wf, lemma_filter_round_trip, sep_of};
pub use serialize::{fmt_filter, fmt_items, wrap_parens};
pub use text::{
    ident_char,
    ident_wf,
    is_ident_char,
    is_ws,
    lex_le,
    lex_lt,
    str_compare,
    str_eq,
    str_le,
    str_lt,
    ws_char,
};
pub use user_desc::{UserDesc, mastodon_name_of, username_of};
pub use user_groups::{
    UserGroups,
    name_set,
    name_views,
    names_sorted,
    names_text,
    sat_names,
    sp_read_names,
    sp_user_names,
};
pub use user_info::UserInfo;
