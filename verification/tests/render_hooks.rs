use rsift_opt_gfx::render_pipeline::VanillaHookCounters;

#[test]
fn vanilla_hook_counters_are_monotonic_deltas() {
    let mut c = VanillaHookCounters::new();
    let (g0, c0) = c.vanilla_render_hook_hits();
    let r1 = c.note_vanilla_get_quads_hook();
    let r2 = c.note_vanilla_get_quads_hook();
    let r3 = c.note_vanilla_chunk_layer_hook();
    let (g1, c1) = c.vanilla_render_hook_hits();
    assert_eq!(g1 - g0, 2);
    assert_eq!(c1 - c0, 1);
    assert_eq!(r2, r1 + 1, "returns the total after the increment");
    assert!(r3 > c0);
}

#[test]
fn hook_counters_start_at_zero_and_are_independent() {
    let mut c = VanillaHookCounters::new();
    assert_eq!(c.vanilla_render_hook_hits(), (0, 0));
    assert_eq!(c.note_vanilla_chunk_layer_hook(), 1);
    assert_eq!(c.note_vanilla_chunk_layer_hook(), 2);
    assert_eq!(c.vanilla_render_hook_hits(), (0, 2));
    assert_eq!(c.note_vanilla_get_quads_hook(), 1);
    assert_eq!(c.vanilla_render_hook_hits(), (1, 2));
}
