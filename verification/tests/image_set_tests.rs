use thyme::image_set::{
    build_image_sets, BuiltImage, BuiltImageKind, ImageDefinition, ImageDefinitionKind, ImageFill,
    ImageSetDefinition, SubImageDefinition,
};
use thyme::Error;

type Def = ImageDefinition<u32, u8>;

fn def(kind: ImageDefinitionKind<u8>) -> Def {
    ImageDefinition { color: 7, kind }
}

fn set(source: Option<&str>, images: Vec<(&str, Def)>) -> ImageSetDefinition<u32, u8> {
    ImageSetDefinition {
        source: source.map(|s| s.to_string()),
        images: images.into_iter().map(|(k, d)| (k.to_string(), d)).collect(),
    }
}

fn textures() -> Vec<String> {
    vec!["tex".to_string()]
}

fn names(built: &[(String, usize)]) -> Vec<(&str, usize)> {
    built.iter().map(|(k, v)| (k.as_str(), *v)).collect()
}

fn theme_message(e: Error) -> String {
    match e {
        Error::Theme(m) => m,
        other => panic!("unexpected error {:?}", other),
    }
}

fn sub(x: u32, y: u32) -> SubImageDefinition {
    SubImageDefinition { position: (x, y), size: (4, 4) }
}

#[test]
fn simple_image_and_the_empty_image() {
    let sets = vec![(
        "gui".to_string(),
        set(Some("tex"), vec![(
            "button",
            def(ImageDefinitionKind::Simple { size: (10, 12), position: (1, 2), fill: ImageFill::Stretch }),
        )]),
    )];
    let built = build_image_sets(&sets, &textures(), 255).ok().unwrap();
    assert_eq!(names(&built.names), vec![("gui/button", 0), ("gui/empty", 1)]);
    assert_eq!(
        built.images[0],
        BuiltImage {
            set: 0,
            color: 7,
            kind: BuiltImageKind::Simple { position: (1, 2), size: (10, 12), fill: ImageFill::Stretch },
        }
    );
    assert_eq!(built.images[1], BuiltImage { set: 0, color: 255, kind: BuiltImageKind::Empty });
}

#[test]
fn a_defined_empty_image_draws_nothing() {
    let sets = vec![("gui".to_string(), set(None, vec![("empty", def(ImageDefinitionKind::Solid))]))];
    let built = build_image_sets(&sets, &textures(), 255).ok().unwrap();
    assert_eq!(names(&built.names), vec![("gui/empty", 0)]);
    assert_eq!(built.images[0].kind, BuiltImageKind::Empty);
    assert_eq!(built.images[0].color, 255);
}

#[test]
fn missing_texture() {
    let sets = vec![("gui".to_string(), set(Some("nope"), vec![]))];
    let e = build_image_sets(&sets, &textures(), 255).err().unwrap();
    assert_eq!(theme_message(e), "Unable to locate texture nope");
}

#[test]
fn alias_takes_the_definition_it_names() {
    let sets = vec![(
        "gui".to_string(),
        set(
            None,
            vec![
                ("b", def(ImageDefinitionKind::Alias { from: "a".to_string() })),
                ("a", def(ImageDefinitionKind::Composed { grid_size: (8, 8), position: (0, 16) })),
                ("c", def(ImageDefinitionKind::Alias { from: "empty".to_string() })),
            ],
        ),
    )];
    let built = build_image_sets(&sets, &textures(), 255).ok().unwrap();
    assert_eq!(names(&built.names), vec![("gui/b", 0), ("gui/a", 1), ("gui/c", 2), ("gui/empty", 3)]);
    assert_eq!(built.images[0].kind, BuiltImageKind::Composed { position: (0, 16), grid_size: (8, 8) });
    assert_eq!(built.images[1].kind, BuiltImageKind::Composed { position: (0, 16), grid_size: (8, 8) });
    assert_eq!(built.images[2].kind, BuiltImageKind::Empty);
    assert_eq!(built.images[2].color, 255);
}

#[test]
fn alias_of_a_missing_image() {
    let sets = vec![(
        "gui".to_string(),
        set(None, vec![("b", def(ImageDefinitionKind::Alias { from: "zzz".to_string() }))]),
    )];
    let e = build_image_sets(&sets, &textures(), 255).err().unwrap();
    assert_eq!(theme_message(e), "Unable to locate image alias from 'zzz'");
}

#[test]
fn groups_generate_their_images() {
    let sets = vec![(
        "gui".to_string(),
        set(
            None,
            vec![
                (
                    "g",
                    def(ImageDefinitionKind::Group {
                        group_scale: (16, 8),
                        fill: ImageFill::Repeat,
                        images: vec![("g1".to_string(), (1, 2, 3, 4))],
                    }),
                ),
                (
                    "h",
                    def(ImageDefinitionKind::Group1x1 {
                        group_scale: (16, 8),
                        fill: ImageFill::BaseSize,
                        images: vec![("h1".to_string(), (2, 3))],
                    }),
                ),
                (
                    "k",
                    def(ImageDefinitionKind::ComposedGroup {
                        grid_size: (5, 6),
                        images: vec![("k1".to_string(), (10, 20)), ("k2".to_string(), (30, 40))],
                    }),
                ),
            ],
        ),
    )];
    let built = build_image_sets(&sets, &textures(), 255).ok().unwrap();
    assert_eq!(
        names(&built.names),
        vec![("gui/g1", 0), ("gui/h1", 1), ("gui/k1", 2), ("gui/k2", 3), ("gui/empty", 4)]
    );
    assert_eq!(
        built.images[0].kind,
        BuiltImageKind::Simple { position: (16, 16), size: (48, 32), fill: ImageFill::Repeat }
    );
    assert_eq!(
        built.images[1].kind,
        BuiltImageKind::Simple { position: (32, 24), size: (16, 8), fill: ImageFill::BaseSize }
    );
    assert_eq!(built.images[3].kind, BuiltImageKind::Composed { position: (30, 40), grid_size: (5, 6) });
}

#[test]
fn collected_images_wait_for_the_images_they_collect() {
    let sets = vec![(
        "gui".to_string(),
        set(
            None,
            vec![
                (
                    "outer",
                    def(ImageDefinitionKind::Collected {
                        sub_images: vec![("inner".to_string(), sub(1, 1)), ("s".to_string(), sub(2, 2))],
                    }),
                ),
                ("inner", def(ImageDefinitionKind::Collected { sub_images: vec![("s".to_string(), sub(3, 3))] })),
                ("s", def(ImageDefinitionKind::Solid)),
            ],
        ),
    )];
    let built = build_image_sets(&sets, &textures(), 255).ok().unwrap();
    assert_eq!(
        names(&built.names),
        vec![("gui/s", 0), ("gui/empty", 1), ("gui/inner", 2), ("gui/outer", 3)]
    );
    assert_eq!(built.images[2].kind, BuiltImageKind::Collected { sub_images: vec![(0, sub(3, 3))] });
    assert_eq!(built.images[3].kind, BuiltImageKind::Collected { sub_images: vec![(2, sub(1, 1)), (0, sub(2, 2))] });
}

#[test]
fn collected_images_in_a_cycle() {
    let sets = vec![(
        "gui".to_string(),
        set(
            None,
            vec![
                ("a", def(ImageDefinitionKind::Collected { sub_images: vec![("b".to_string(), sub(0, 0))] })),
                ("b", def(ImageDefinitionKind::Collected { sub_images: vec![("a".to_string(), sub(0, 0))] })),
            ],
        ),
    )];
    let e = build_image_sets(&sets, &textures(), 255).err().unwrap();
    assert_eq!(
        theme_message(e),
        "Unable to resolve all collected images due to cyclic or invalid references"
    );
}

#[test]
fn timed_and_animated_images() {
    let sets = vec![(
        "gui".to_string(),
        set(
            None,
            vec![
                (
                    "t",
                    def(ImageDefinitionKind::Timed {
                        frame_time_millis: 100,
                        frames: vec!["s".to_string(), "empty".to_string()],
                        once: true,
                    }),
                ),
                ("a", def(ImageDefinitionKind::Animated { states: vec![(3, "t".to_string()), (4, "s".to_string())] })),
                ("s", def(ImageDefinitionKind::Solid)),
            ],
        ),
    )];
    let built = build_image_sets(&sets, &textures(), 255).ok().unwrap();
    assert_eq!(
        names(&built.names),
        vec![("gui/s", 0), ("gui/empty", 1), ("gui/t", 2), ("gui/a", 3)]
    );
    assert_eq!(
        built.images[2].kind,
        BuiltImageKind::Timed { frame_time_millis: 100, frames: vec![0, 1], once: true }
    );
    assert_eq!(built.images[3].kind, BuiltImageKind::Animated { states: vec![(3, 2), (4, 0)] });
}

#[test]
fn timed_image_without_frames() {
    let sets = vec![(
        "gui".to_string(),
        set(None, vec![("t", def(ImageDefinitionKind::Timed { frame_time_millis: 10, frames: vec![], once: false }))]),
    )];
    let e = build_image_sets(&sets, &textures(), 255).err().unwrap();
    assert_eq!(theme_message(e), "No frames specified for image: t");
}

#[test]
fn timed_image_with_a_missing_frame() {
    let sets = vec![(
        "gui".to_string(),
        set(
            None,
            vec![(
                "t",
                def(ImageDefinitionKind::Timed { frame_time_millis: 10, frames: vec!["x".to_string()], once: false }),
            )],
        ),
    )];
    let e = build_image_sets(&sets, &textures(), 255).err().unwrap();
    assert_eq!(theme_message(e), "Unable to find image 'x' referenced as sub image of 't'");
}

#[test]
fn several_sets_share_one_list() {
    let sets = vec![
        ("one".to_string(), set(None, vec![("a", def(ImageDefinitionKind::Solid))])),
        ("two".to_string(), set(Some("tex"), vec![("a", def(ImageDefinitionKind::Solid))])),
    ];
    let built = build_image_sets(&sets, &textures(), 255).ok().unwrap();
    assert_eq!(
        names(&built.names),
        vec![("one/a", 0), ("one/empty", 1), ("two/a", 2), ("two/empty", 3)]
    );
    assert_eq!(built.images[2].set, 1);
    assert_eq!(built.images[1].set, 0);
}
