//! The asset types of the two games, by pool index, and what is known about which are worth
//! searching.

use vstd::prelude::*;

use crate::text::{contains_text, decimal, decimal_spec, flat, occurs, occurs_at, same_flat, same_text};

verus! {

/// Cold War's tag: the game ground unless another is configured.
pub const GAME: &'static str = "BLKOPSCW";

/// Black Ops 4's tag, for which the other numbering applies.
pub const BLACK_OPS_4: &'static str = "BLKOPS04";

/// Cold War's asset types, by pool index -- the whole asset type enum, since Cold War is "Black
/// Ops 5" internally. Index 18 being the sound bank pool is what first confirmed the ordering;
/// index 184 being `streamkey` is what identified the largest unnamed pool in the game.
///
/// The last entry, `sound_alias`, is appended past the real enum: sound aliases live inside the
/// bank assets as records the games store only as hashes, so no pool of the game's own holds
/// them.
pub const POOLS: [&'static str; 222] = [
    "zone", "assetlist", "physpreset", "physconstraints", "destructibledef", "xanim", "xmodel",
    "xcollision", "xskeleton", "xmodelmesh", "material", "csdef", "computeshaderset", "rtsdef",
    "raytraceshaderset", "techset", "image", "sound", "sound_bank", "sound_asset", "sound_duck",
    "sound_alias_modifier", "sound_acoustics", "col_map", "clip_map", "com_map", "game_map",
    "gfx_map", "fonticon", "localizeentry", "gesture", "gesturetable", "cinematicmotion", "weapon",
    "weaponfull", "weaponfrontend", "weaponblueprint", "weaponstylesettings",
    "weaponsecondarymovement", "weapontunables", "cgmediatable", "playersoundstable",
    "playerfxtable", "sharedweaponsounds", "attachment", "attachmentunique", "weaponcamo",
    "weaponcamobinding", "customizationtable", "customizationtablefrontend", "snddriverglobals",
    "fx", "tagfx", "klf", "impactsfxtable", "impactsoundstable", "aitype", "character",
    "xmodelalias", "rawfile", "rawfilepreproc", "rawtextfile", "animtree", "stringtable",
    "structuredtable", "leaderboarddef", "ddl", "glasses", "scriptparsetree", "scriptparsetreedbg",
    "script_using", "script_using_cp", "script_using_mp", "script_using_wz", "script_using_zm",
    "keyvaluepairs", "vehicle", "tracer", "surfacefxtable", "surfacesounddef", "footsteptable",
    "entityfximpacts", "entitysoundimpacts", "zbarrier", "vehiclefxdef", "vehiclesounddef",
    "typeinfo", "scriptbundle", "scriptbundlelist", "rumble", "bulletpenetration", "locdmgtable",
    "aimtable", "shoottable", "playerglobaltunables", "overheadcameratunables", "animselectortable",
    "animmappingtable", "animstatemachine", "behaviortree", "behaviorstatemachine", "ttf", "sanim",
    "shellshock", "statuseffect", "cinematic_camera", "cinematic_sequence", "spectate_camera",
    "xcam", "bgcache", "flametable", "bitfield", "maptable", "maptableentry", "maptablelist",
    "objective", "objectivelist", "navmesh", "navvolume", "laser", "beam", "streamerhint",
    "flowgraph", "postfxbundle", "luafile", "luafiledebug", "renderoverridebundle",
    "staticlevelfxlist", "triggerlist", "playerroletemplate", "playerroletemplatefrontend",
    "playerrolecategorytable", "playerrolecategory", "characterbodytype",
    "characterbodytypefrontend", "playeroutfit", "gametypetable", "gametypetableentry", "feature",
    "featuretable", "unlockableitem", "unlockableitemtable", "entitylist", "playlists",
    "playlistglobalsettings", "playlistschedule", "motionmatchinginput", "blackboard",
    "tacticalquery", "playermovementtunables", "hierarchicaltasknetwork", "ragdoll", "storagefile",
    "storagefilelist", "charmixer", "storeproduct", "storecategory", "storecategorylist", "rank",
    "ranktable", "prestige", "prestigetable", "firstpartyentitlement", "firstpartyentitlementlist",
    "entitlement", "entitlementlist", "sku", "labelstore", "labelstorelist", "cpu_occlusion_data",
    "lighting", "districts", "streamerworld", "talent", "playertalenttemplate", "playeranimation",
    "unused", "terraingfx", "highlightreelinfodefines", "highlightreelprofileweighting",
    "highlightreelstarlevels", "dlogevent", "rawstring", "ballisticdesc", "streamkey",
    "rendertargets", "drawnodes", "grouplodmodel", "fxlibraryvolume", "arenaseasons",
    "sprayorgestureitem", "sprayorgesturelist", "hwplatform", "attachmenttable", "navinput",
    "uimodeldatastruct", "crafticon", "crafticonlist", "craftweaponsticker",
    "craftweaponstickerlist", "craftbackground", "craftbackgroundlist", "craftmaterial",
    "craftmateriallist", "craftcategory", "craftcategorylist", "craftweaponicontransform",
    "craftweaponicontransformlist", "xanimcurve", "dynmodel", "vectorfield", "winddef",
    "vehicleassembly", "milestone", "milestonetable", "triggereffectdesc", "triggeractions",
    "playersettings", "compasstunables", "execution", "scenario", "sound_alias",
];

/// Black Ops 4's asset types, by pool index. A different enum entirely -- xmodel is 6 in Cold
/// War and 4 here -- which is why a find has to be labelled against the game it was found in.
///
/// `sound_asset` at 170 and `sound_alias` at 171 are appended past the real enum, and their
/// order cannot change: Black Ops 4's own `sound` pool at 10 holds sound banks, and the
/// individual sounds live in SAB files the loader never opens. Snapshots already carry ids filed
/// under 170, so anything inserted ahead of it would silently relabel every one of them.
pub const BO4_POOLS: [&'static str; 172] = [
    "physpreset", "physconstraints", "destructibledef", "xanim", "xmodel", "xmodelmesh", "material",
    "compute_shader_set", "technique_set", "image", "sound", "clipmap", "comworld", "gameworld",
    "gfxworld", "fonticon", "localize_entry", "localize_list", "gesture", "gesture_table", "weapon",
    "weapon_full", "weapon_tunables", "cgmedia", "playersounds", "playerfx", "sharedweaponsounds",
    "attachment", "attachment_unique", "weapon_camo", "customization_table",
    "customization_table_fe_images", "snddriver_globals", "fx", "tagfx", "klf", "impact_fx",
    "impact_sound", "aitype", "character", "xmodelalias", "rawfile", "xanim_tree", "stringtable",
    "structured_table", "leaderboard", "ddl", "glasses", "scriptparsetree", "scriptparsetreedbg",
    "scriptparsetreeforced", "keyvaluepairs", "vehicledef", "tracer", "surfacefx_table",
    "surfacesounddef", "footstep_table", "entityfximpacts", "entitysoundimpacts", "zbarrier",
    "vehiclefxdef", "vehiclesounddef", "typeinfo", "scriptbundle", "scriptbundlelist", "rumble",
    "bulletpenetration", "locdmgtable", "aimtable", "shoottable", "playerglobaltunables",
    "animselectortableset", "animmappingtable", "animstatemachine", "behaviortree",
    "behaviorstatemachine", "ttf", "sanim", "light_description", "shellshock", "status_effect",
    "cinematic_camera", "cinematic_sequence", "spectate_camera", "xcam", "bg_cache",
    "texture_combo", "flametable", "bitfield", "maptable", "maptable_list",
    "maptable_loading_images", "maptable_preview_images", "maptableentry_level_assets", "objective",
    "objective_list", "navmesh", "navvolume", "laser", "beam", "streamer_hint", "flowgraph",
    "postfxbundle", "luafile", "luafile_dbg", "renderoverridebundle", "static_level_fx_list",
    "trigger_list", "player_role_template", "player_role_category_table", "player_role_category",
    "character_body_type", "player_outfit", "gametypetable", "feature", "featuretable",
    "unlockable_item", "unlockable_item_table", "entity_list", "playlists",
    "playlist_global_settings", "playlist_schedule", "motion_matching_input", "blackboard",
    "tacticalquery", "player_movement_tunables", "hierarchical_task_network", "ragdoll",
    "storagefile", "storagefilelist", "charmixer", "storeproduct", "storecategory",
    "storecategorylist", "rank", "ranktable", "prestige", "prestigetable", "firstpartyentitlement",
    "firstpartyentitlementlist", "entitlement", "entitlementlist", "sku", "labelstore",
    "labelstorelist", "cpu_occlusion_data", "lighting", "streamerworld", "talent",
    "playertalenttemplate", "playeranimation", "err_unused", "terraingfx",
    "highlightreelinfodefines", "highlightreelprofileweighting", "highlightreelstarlevels",
    "dlogevent", "rawstring", "ballisticdesc", "streamkey", "rendertargets", "drawnodes",
    "grouplodmodel", "fxlibraryvolume", "arenaseasons", "sprayorgestureitem", "sprayorgesturelist",
    "hwplatform", "assetlist", "report", "sound_asset", "sound_alias",
];

/// The same asset type under the names the two games give it.
///
/// Differences that are only underscores are handled by comparison rather than listed here.
/// These are the ones where the games genuinely chose different words. Black Ops 4 has no
/// separate `sound_asset` at all, so it falls back to its one `sound` pool.
pub const ALIASES: [[&'static str; 2]; 6] = [
    ["sound_asset", "sound"],
    ["com_map", "comworld"],
    ["game_map", "gameworld"],
    ["gfx_map", "gfxworld"],
    ["techset", "technique_set"],
    ["animtree", "xanim_tree"],
];

/// Pools that are large, easy to hit, and worth nothing -- with the reason, so that the next
/// person to be tempted by one can see what it cost the last person. A program can refuse where
/// prose cannot.
pub const LOW_VALUE_POOLS: [(&'static str, &'static str); 4] = [
    (
        "streamkey",
        "the largest pool in both games and the emptiest. One pass produced ~290,000 genuine hashes, overwhelmingly sequential terrain entries like `maps/mp/mp_apocalypse.d3dbsp_s1__terrain_l01_n000079` -- real names describing nothing anybody needs. They also bury the useful findings in the same results folder.",
    ),
    (
        "localizeentry",
        "a localize entry is a 16-byte struct holding a pointer to its own *unhashed* string, so the plain text is already in the build. No published table holds one of these names because recovering them proves nothing. 8,667 were confirmed in a single twenty-minute pass, all worthless.",
    ),
    (
        "localize_entry",
        "the Black Ops 4 spelling of `localizeentry`, and worthless for the same reason.",
    ),
    (
        "xmodelmesh",
        "structurally unreachable: a mesh name is `<model>_s1_geo_rigid_bs_` plus twenty-six characters of base32 that are a hash of the mesh itself. No rule can produce it, and leaving these ids in the wanted set roughly doubles what a candidate can land on by coincidence.",
    ),
];

/// The texts of a table of names.
pub open spec fn table_texts(table: Seq<&str>) -> Seq<Seq<char>> {
    table.map_values(|name: &str| name@)
}

/// The first place from `from` on that holds `name` is where it is found.
proof fn lemma_first_at_finds(table: Seq<Seq<char>>, name: Seq<char>, from: int, i: int)
    requires
        0 <= from <= i < table.len(),
        table[i] == name,
        forall|j: int| from <= j < i ==> table[j] != name,
    ensures
        first_at(table, name, from) == Some(i),
    decreases i - from,
{
    if from < i {
        lemma_first_at_finds(table, name, from + 1, i);
    }
}

/// A name held nowhere from `from` on is not found.
proof fn lemma_first_at_misses(table: Seq<Seq<char>>, name: Seq<char>, from: int)
    requires
        0 <= from,
        forall|j: int| from <= j < table.len() ==> table[j] != name,
    ensures
        first_at(table, name, from) is None,
    decreases table.len() - from,
{
    if from < table.len() {
        lemma_first_at_misses(table, name, from + 1);
    }
}

/// The first place from `from` on that holds `name`, underscores ignored, is where it is found.
proof fn lemma_first_flat_finds(table: Seq<Seq<char>>, name: Seq<char>, from: int, i: int)
    requires
        0 <= from <= i < table.len(),
        flat(table[i]) == flat(name),
        forall|j: int| from <= j < i ==> flat(table[j]) != flat(name),
    ensures
        first_flat(table, name, from) == Some(i),
    decreases i - from,
{
    if from < i {
        lemma_first_flat_finds(table, name, from + 1, i);
    }
}

/// A name held nowhere from `from` on, even underscores ignored, is not found.
proof fn lemma_first_flat_misses(table: Seq<Seq<char>>, name: Seq<char>, from: int)
    requires
        0 <= from,
        forall|j: int| from <= j < table.len() ==> flat(table[j]) != flat(name),
    ensures
        first_flat(table, name, from) is None,
    decreases table.len() - from,
{
    if from < table.len() {
        lemma_first_flat_misses(table, name, from + 1);
    }
}

/// A name the table holds is found at the first place that holds it.
pub proof fn law_a_held_name_is_found_first(table: Seq<Seq<char>>, kind: Seq<char>, i: int)
    requires
        0 <= i < table.len(),
        table[i] == kind,
        forall|j: int| 0 <= j < i ==> table[j] != kind,
    ensures
        pool_index_spec(table, kind) == Some(i),
{
    lemma_first_at_finds(table, kind, 0, i);
}

/// A name the table does not hold, but holds once underscores are ignored, is found at the first
/// place that holds it so.
pub proof fn law_underscores_are_ignored_next(table: Seq<Seq<char>>, kind: Seq<char>, i: int)
    requires
        0 <= i < table.len(),
        forall|j: int| 0 <= j < table.len() ==> table[j] != kind,
        flat(table[i]) == flat(kind),
        forall|j: int| 0 <= j < i ==> flat(table[j]) != flat(kind),
    ensures
        pool_index_spec(table, kind) == Some(i),
{
    lemma_first_at_misses(table, kind, 0);
    lemma_first_flat_finds(table, kind, 0, i);
}

/// The pairs of words the two games use for the same pool, each word in one pair only.
proof fn lemma_alias_words()
    ensures
        ALIASES@.len() == 6,
        ALIASES@[0]@[0]@ == "sound_asset"@ && ALIASES@[0]@[1]@ == "sound"@,
        ALIASES@[1]@[0]@ == "com_map"@ && ALIASES@[1]@[1]@ == "comworld"@,
        ALIASES@[2]@[0]@ == "game_map"@ && ALIASES@[2]@[1]@ == "gameworld"@,
        ALIASES@[3]@[0]@ == "gfx_map"@ && ALIASES@[3]@[1]@ == "gfxworld"@,
        ALIASES@[4]@[0]@ == "techset"@ && ALIASES@[4]@[1]@ == "technique_set"@,
        ALIASES@[5]@[0]@ == "animtree"@ && ALIASES@[5]@[1]@ == "xanim_tree"@,
        forall|g: int, h: int, v: int, w: int|
            0 <= g < 6 && 0 <= h < 6 && 0 <= v < 2 && 0 <= w < 2 && g != h ==> #[trigger] ALIASES@[g]@[v]@
                != #[trigger] ALIASES@[h]@[w]@,
{
    reveal_strlit("sound_asset");
    reveal_strlit("sound");
    reveal_strlit("com_map");
    reveal_strlit("comworld");
    reveal_strlit("game_map");
    reveal_strlit("gameworld");
    reveal_strlit("gfx_map");
    reveal_strlit("gfxworld");
    reveal_strlit("techset");
    reveal_strlit("technique_set");
    reveal_strlit("animtree");
    reveal_strlit("xanim_tree");
    assert forall|g: int, h: int, v: int, w: int|
        0 <= g < 6 && 0 <= h < 6 && 0 <= v < 2 && 0 <= w < 2 && g != h implies #[trigger] ALIASES@[g]@[v]@
            != #[trigger] ALIASES@[h]@[w]@ by {
        let x = ALIASES@[g]@[v]@;
        let y = ALIASES@[h]@[w]@;
        if x == y {
            assert(x.len() == y.len());
            assert(x[0] == y[0] && x[1] == y[1] && x[2] == y[2] && x[3] == y[3]);
        }
    }
}

/// Alias groups that do not hold the name are passed over.
proof fn lemma_alias_passes_over(table: Seq<Seq<char>>, kind: Seq<char>, from: int, to: int)
    requires
        0 <= from <= to <= ALIASES@.len(),
        forall|h: int, w: int| from <= h < to && 0 <= w < 2 ==> kind != #[trigger] ALIASES@[h]@[w]@,
    ensures
        alias_from(table, kind, from) == alias_from(table, kind, to),
    decreases to - from,
{
    if from < to {
        assert(kind != ALIASES@[from]@[0]@ && kind != ALIASES@[from]@[1]@);
        lemma_alias_passes_over(table, kind, from + 1, to);
    }
}

/// A name the table does not hold, even with underscores ignored, but which is one of a pair of
/// words the two games use for the same pool, is found where the table holds the pair's first
/// word (the first such place), failing that where it holds the second; and not at all when the
/// table holds neither.
pub proof fn law_the_other_games_word_is_tried(table: Seq<Seq<char>>, kind: Seq<char>, g: int, w: int)
    requires
        0 <= g < ALIASES@.len(),
        0 <= w < 2,
        kind == ALIASES@[g]@[w]@,
        forall|j: int| 0 <= j < table.len() ==> table[j] != kind && flat(table[j]) != flat(kind),
    ensures
        forall|i: int|
            0 <= i < table.len() && #[trigger] table[i] == ALIASES@[g]@[0]@ && (forall|j: int|
                0 <= j < i ==> table[j] != ALIASES@[g]@[0]@) ==> pool_index_spec(table, kind) == Some(i),
        forall|i: int|
            0 <= i < table.len() && #[trigger] table[i] == ALIASES@[g]@[1]@ && (forall|j: int|
                0 <= j < table.len() ==> table[j] != ALIASES@[g]@[0]@) && (forall|j: int|
                0 <= j < i ==> table[j] != ALIASES@[g]@[1]@) ==> pool_index_spec(table, kind) == Some(i),
        (forall|j: int|
            0 <= j < table.len() ==> table[j] != ALIASES@[g]@[0]@ && table[j] != ALIASES@[g]@[1]@)
            ==> pool_index_spec(table, kind) is None,
{
    lemma_alias_words();
    lemma_first_at_misses(table, kind, 0);
    lemma_first_flat_misses(table, kind, 0);
    assert forall|h: int, v: int| 0 <= h < g && 0 <= v < 2 implies kind != #[trigger] ALIASES@[h]@[v]@ by {
        assert(ALIASES@[g]@[w]@ != ALIASES@[h]@[v]@);
    }
    lemma_alias_passes_over(table, kind, 0, g);
    assert forall|h: int, v: int| g + 1 <= h < 6 && 0 <= v < 2 implies kind != #[trigger] ALIASES@[h]@[v]@ by {
        assert(ALIASES@[g]@[w]@ != ALIASES@[h]@[v]@);
    }
    lemma_alias_passes_over(table, kind, g + 1, 6);
    let a = ALIASES@[g]@[0]@;
    let b = ALIASES@[g]@[1]@;
    assert forall|i: int|
        0 <= i < table.len() && #[trigger] table[i] == a && (forall|j: int| 0 <= j < i ==> table[j] != a)
            implies pool_index_spec(table, kind) == Some(i) by {
        lemma_first_at_finds(table, a, 0, i);
    }
    assert forall|i: int|
        0 <= i < table.len() && #[trigger] table[i] == b && (forall|j: int| 0 <= j < table.len() ==> table[j] != a)
            && (forall|j: int| 0 <= j < i ==> table[j] != b) implies pool_index_spec(table, kind) == Some(i) by {
        lemma_first_at_misses(table, a, 0);
        lemma_first_at_finds(table, b, 0, i);
    }
    if forall|j: int| 0 <= j < table.len() ==> table[j] != a && table[j] != b {
        lemma_first_at_misses(table, a, 0);
        lemma_first_at_misses(table, b, 0);
    }
}

/// A name the table does not hold, even with underscores ignored, and which is no game's other
/// word for a pool, is not found.
pub proof fn law_an_unknown_name_is_not_found(table: Seq<Seq<char>>, kind: Seq<char>)
    requires
        forall|j: int| 0 <= j < table.len() ==> table[j] != kind && flat(table[j]) != flat(kind),
        forall|g: int, w: int| 0 <= g < ALIASES@.len() && 0 <= w < 2 ==> kind != #[trigger] ALIASES@[g]@[w]@,
    ensures
        pool_index_spec(table, kind) is None,
{
    lemma_alias_words();
    lemma_first_at_misses(table, kind, 0);
    lemma_first_flat_misses(table, kind, 0);
    lemma_alias_passes_over(table, kind, 0, 6);
}

/// The pool names for a game's tag: Black Ops 4's for its own tag, Cold War's for any other.
pub open spec fn pools_for_spec(game: Seq<char>) -> Seq<&'static str> {
    if game == BLACK_OPS_4@ {
        BO4_POOLS@
    } else {
        POOLS@
    }
}

/// The first place at or after `from` where `table` holds `name`.
pub open spec fn first_at(table: Seq<Seq<char>>, name: Seq<char>, from: int) -> Option<int>
    decreases table.len() - from,
{
    if from < 0 || from >= table.len() {
        None
    } else if table[from] == name {
        Some(from)
    } else {
        first_at(table, name, from + 1)
    }
}

/// The first place at or after `from` where `table` holds `name` once underscores are ignored.
pub open spec fn first_flat(table: Seq<Seq<char>>, name: Seq<char>, from: int) -> Option<int>
    decreases table.len() - from,
{
    if from < 0 || from >= table.len() {
        None
    } else if flat(table[from]) == flat(name) {
        Some(from)
    } else {
        first_flat(table, name, from + 1)
    }
}

/// The place `name` is found under another game's word for it, trying the alias groups from
/// `group` on in order, and each group's words in order.
pub open spec fn alias_from(table: Seq<Seq<char>>, name: Seq<char>, group: int) -> Option<int>
    decreases ALIASES@.len() - group,
{
    if group < 0 || group >= ALIASES@.len() {
        None
    } else {
        let words = ALIASES@[group]@;
        if words[0]@ == name || words[1]@ == name {
            match first_at(table, words[0]@, 0) {
                Some(found) => Some(found),
                None => match first_at(table, words[1]@, 0) {
                    Some(found) => Some(found),
                    None => alias_from(table, name, group + 1),
                },
            }
        } else {
            alias_from(table, name, group + 1)
        }
    }
}

/// Which pool index an asset type name is: the name as given, then ignoring underscores, then
/// the name the other game uses for the same thing.
pub open spec fn pool_index_spec(table: Seq<Seq<char>>, kind: Seq<char>) -> Option<int> {
    match first_at(table, kind, 0) {
        Some(found) => Some(found),
        None => match first_flat(table, kind, 0) {
            Some(found) => Some(found),
            None => alias_from(table, kind, 0),
        },
    }
}

/// The pool names for the game being ground, `game` being its tag as the configuration gives it.
pub fn pools(game: &str) -> (out: &'static [&'static str])
    ensures
        out@ == pools_for_spec(game@),
{
    pools_for(game)
}

/// The pool names for a named game.
///
/// Labelling one game's pool index out of the other's enum has produced wrong answers stated
/// with complete confidence, because index 5 is `xanim` in Cold War and `xmodelmesh` in Black
/// Ops 4 and both look perfectly reasonable in a log.
pub fn pools_for(game: &str) -> (out: &'static [&'static str])
    ensures
        out@ == pools_for_spec(game@),
{
    if same_text(game, BLACK_OPS_4) {
        &BO4_POOLS
    } else {
        &POOLS
    }
}

/// What to file a find in this pool under: the asset type when the numbering knows the index,
/// and `pool_NNN` when it does not.
pub fn pool_label(game: &str, index: usize) -> (out: String)
    ensures
        out@ == if index < pools_for_spec(game@).len() {
            pools_for_spec(game@)[index as int]@
        } else {
            "pool_"@ + decimal_spec(index as nat)
        },
{
    let table = pools(game);
    if index < table.len() {
        table[index].to_owned()
    } else {
        let mut out = String::new();
        out.append("pool_");
        out.append(decimal(index as u64).as_str());
        out
    }
}

/// Which pool index an asset type name is, in the game being ground.
pub fn pool_index(game: &str, kind: &str) -> (out: Option<usize>)
    ensures
        out matches Some(found) ==> pool_index_spec(table_texts(pools_for_spec(game@)), kind@)
            == Some(found as int),
        out is None ==> pool_index_spec(table_texts(pools_for_spec(game@)), kind@) is None,
{
    pool_index_in(pools(game), kind)
}

/// The first place `table` holds `name`.
fn position(table: &[&str], name: &str) -> (out: Option<usize>)
    ensures
        out matches Some(found) ==> first_at(table_texts(table@), name@, 0) == Some(found as int),
        out is None ==> first_at(table_texts(table@), name@, 0) is None,
{
    let ghost texts = table_texts(table@);
    let mut i: usize = 0;
    while i < table.len()
        invariant
            i <= table@.len(),
            texts == table_texts(table@),
            first_at(texts, name@, 0) == first_at(texts, name@, i as int),
        decreases table@.len() - i,
    {
        if same_text(table[i], name) {
            return Some(i);
        }
        i = i + 1;
    }
    None
}

/// The first place `table` holds `name`, ignoring underscores.
fn position_flat(table: &[&str], name: &str) -> (out: Option<usize>)
    ensures
        out matches Some(found) ==> first_flat(table_texts(table@), name@, 0) == Some(found as int),
        out is None ==> first_flat(table_texts(table@), name@, 0) is None,
{
    let ghost texts = table_texts(table@);
    let mut i: usize = 0;
    while i < table.len()
        invariant
            i <= table@.len(),
            texts == table_texts(table@),
            first_flat(texts, name@, 0) == first_flat(texts, name@, i as int),
        decreases table@.len() - i,
    {
        if same_flat(table[i], name) {
            return Some(i);
        }
        i = i + 1;
    }
    None
}

/// The same lookup against a named table rather than the game being ground: the name as given,
/// then ignoring underscores, then the name the other game uses for the same thing.
pub fn pool_index_in(table: &[&str], kind: &str) -> (out: Option<usize>)
    ensures
        out matches Some(found) ==> pool_index_spec(table_texts(table@), kind@) == Some(found as int),
        out is None ==> pool_index_spec(table_texts(table@), kind@) is None,
{
    let ghost texts = table_texts(table@);
    if let Some(found) = position(table, kind) {
        return Some(found);
    }
    if let Some(found) = position_flat(table, kind) {
        return Some(found);
    }
    let mut group: usize = 0;
    while group < ALIASES.len()
        invariant
            group <= ALIASES@.len(),
            texts == table_texts(table@),
            first_at(texts, kind@, 0) is None,
            first_flat(texts, kind@, 0) is None,
            alias_from(texts, kind@, 0) == alias_from(texts, kind@, group as int),
        decreases ALIASES@.len() - group,
    {
        let words = ALIASES[group];
        if same_text(words[0], kind) || same_text(words[1], kind) {
            if let Some(found) = position(table, words[0]) {
                return Some(found);
            }
            if let Some(found) = position(table, words[1]) {
                return Some(found);
            }
        }
        group = group + 1;
    }
    None
}

/// Whether a pool holds sound names, which are the ones that carry a `.rn75.` or `.ln75.` tail.
pub open spec fn sound_pool(pool: Seq<char>) -> bool {
    pool == "sound"@ || pool == "sound_asset"@ || pool == "sound_bank"@ || pool == "sound_duck"@
}

/// Why a name does not look like its pool's convention, without claiming it is wrong.
pub open spec fn oddity(pool: Seq<char>, name: Seq<char>) -> Option<Seq<char>> {
    if !sound_pool(pool) && (occurs(name, ".rn75."@) || occurs(name, ".ln75."@)) {
        Some(
            "carries a sound name's `.rn75.`/`.ln75.` tail but is filed as `"@ + pool
                + "`, which no published xmodel, image, material or xanim does. Kept and submitted -- one such name is verified real, a sound path pasted onto a model by mistake -- but held back from the seed corpus, because learning a convention from somebody's slip would aim every later candidate wrongly."@,
        )
    } else {
        None
    }
}

/// A name is flagged exactly when it carries `.rn75.` or `.ln75.` somewhere and is filed
/// under a pool other than the four sound pools (`sound`, `sound_asset`, `sound_bank`,
/// `sound_duck`); the note then names the pool it was filed under.
pub proof fn law_only_a_sound_tail_off_the_sound_pools_is_flagged(pool: Seq<char>, name: Seq<char>)
    ensures
        oddity(pool, name) is Some <==> !(pool == "sound"@ || pool == "sound_asset"@ || pool
            == "sound_bank"@ || pool == "sound_duck"@) && exists|i: int|
            0 <= i && i + 6 <= name.len() && (#[trigger] name.subrange(i, i + 6) == ".rn75."@
                || name.subrange(i, i + 6) == ".ln75."@),
        oddity(pool, name) matches Some(why) ==> exists|a: Seq<char>, b: Seq<char>|
            #[trigger] (a + pool + b) == why,
{
    reveal_strlit(".rn75.");
    reveal_strlit(".ln75.");
    let rn = ".rn75."@;
    let ln = ".ln75."@;
    assert(rn.len() == 6 && ln.len() == 6);
    if occurs(name, rn) {
        let at = choose|at: int| #[trigger] occurs_at(name, rn, at);
        assert(name.subrange(at, at + 6) == rn);
    }
    if occurs(name, ln) {
        let at = choose|at: int| #[trigger] occurs_at(name, ln, at);
        assert(name.subrange(at, at + 6) == ln);
    }
    if exists|i: int|
        0 <= i && i + 6 <= name.len() && (#[trigger] name.subrange(i, i + 6) == rn
            || name.subrange(i, i + 6) == ln) {
        let i = choose|i: int|
            0 <= i && i + 6 <= name.len() && (#[trigger] name.subrange(i, i + 6) == rn
                || name.subrange(i, i + 6) == ln);
        if name.subrange(i, i + 6) == rn {
            assert(occurs_at(name, rn, i));
        } else {
            assert(occurs_at(name, ln, i));
        }
    }
    if oddity(pool, name) is Some {
        let why = oddity(pool, name)->0;
        let a = "carries a sound name's `.rn75.`/`.ln75.` tail but is filed as `"@;
        let b = "`, which no published xmodel, image, material or xanim does. Kept and submitted -- one such name is verified real, a sound path pasted onto a model by mistake -- but held back from the seed corpus, because learning a convention from somebody's slip would aim every later candidate wrongly."@;
        assert(a + pool + b == why);
    }
}

/// Why a name does not look like its pool's convention -- without claiming it is wrong.
///
/// A match proves a string hashes to an id the game holds, not that it is that asset's name.
/// Across the published tables no xmodel, image, material or xanim name carries a `.rn75.` or
/// `.ln75.` tail, while sound names do, so one on anything else is worth flagging. Never
/// rejecting: the first one caught turned out to be a model's real name, a sound path pasted
/// onto a model by mistake. What an odd shape is good for is deciding what not to learn from.
pub fn odd_for_pool(pool: &str, name: &str) -> (out: Option<String>)
    ensures
        out matches Some(why) ==> oddity(pool@, name@) == Some(why@),
        out is None ==> oddity(pool@, name@) is None,
{
    let sound = same_text(pool, "sound") || same_text(pool, "sound_asset") || same_text(
        pool,
        "sound_bank",
    ) || same_text(pool, "sound_duck");
    if !sound && (contains_text(name, ".rn75.") || contains_text(name, ".ln75.")) {
        let mut why = String::new();
        why.append("carries a sound name's `.rn75.`/`.ln75.` tail but is filed as `");
        why.append(pool);
        why.append(
            "`, which no published xmodel, image, material or xanim does. Kept and submitted -- one such name is verified real, a sound path pasted onto a model by mistake -- but held back from the seed corpus, because learning a convention from somebody's slip would aim every later candidate wrongly.",
        );
        return Some(why);
    }
    None
}

/// The reason listed for the first low-value pool at or after `from` named `pool`.
pub open spec fn low_value_from(pool: Seq<char>, from: int) -> Option<&'static str>
    decreases LOW_VALUE_POOLS@.len() - from,
{
    if from < 0 || from >= LOW_VALUE_POOLS@.len() {
        None
    } else if LOW_VALUE_POOLS@[from].0@ == pool {
        Some(LOW_VALUE_POOLS@[from].1)
    } else {
        low_value_from(pool, from + 1)
    }
}

/// Exactly four pools are refused as worth nothing: `streamkey`, `localizeentry`,
/// `localize_entry` and `xmodelmesh`. Every other pool name, in either game, has no reason
/// against it.
pub proof fn law_the_worthless_pools(pool: Seq<char>)
    ensures
        low_value_from(pool, 0) is Some <==> (pool == "streamkey"@ || pool == "localizeentry"@
            || pool == "localize_entry"@ || pool == "xmodelmesh"@),
{
    reveal_strlit("streamkey");
    reveal_strlit("localizeentry");
    reveal_strlit("localize_entry");
    reveal_strlit("xmodelmesh");
    assert(LOW_VALUE_POOLS@.len() == 4);
    assert(LOW_VALUE_POOLS@[0].0@ == "streamkey"@);
    assert(LOW_VALUE_POOLS@[1].0@ == "localizeentry"@);
    assert(LOW_VALUE_POOLS@[2].0@ == "localize_entry"@);
    assert(LOW_VALUE_POOLS@[3].0@ == "xmodelmesh"@);
    assert(low_value_from(pool, 4) is None);
    reveal_with_fuel(low_value_from, 5);
    if pool == "localizeentry"@ || pool == "localize_entry"@ || pool == "xmodelmesh"@ {
        assert(pool != "streamkey"@) by {
            if pool == "streamkey"@ {
                assert(pool.len() == 9);
            }
        }
    }
    if pool == "localize_entry"@ || pool == "xmodelmesh"@ {
        assert(pool != "localizeentry"@) by {
            if pool == "localizeentry"@ {
                assert(pool.len() == 13);
            }
        }
    }
    if pool == "xmodelmesh"@ {
        assert(pool != "localize_entry"@) by {
            if pool == "localize_entry"@ {
                assert(pool.len() == 14);
            }
        }
    }
}

/// Why this pool is not worth searching, if it is one of the ones that is not.
pub fn low_value_reason(pool: &str) -> (out: Option<&'static str>)
    ensures
        out == low_value_from(pool@, 0),
{
    let mut i: usize = 0;
    while i < LOW_VALUE_POOLS.len()
        invariant
            i <= LOW_VALUE_POOLS@.len(),
            low_value_from(pool@, 0) == low_value_from(pool@, i as int),
        decreases LOW_VALUE_POOLS@.len() - i,
    {
        let (name, reason) = LOW_VALUE_POOLS[i];
        if same_text(name, pool) {
            return Some(reason);
        }
        i = i + 1;
    }
    None
}

} // verus!
