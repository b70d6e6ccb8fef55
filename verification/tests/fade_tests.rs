use bnchroma::fade::{
    assemble_output, command_env, prepare_palette, render_into, runs_commands, select_source_hex,
    try_render_into, validate_entry, EntryError, Hsl, Palette, Piece, RenderCtx, TemplateConfig,
    VarError, VarValue,
};
use bnchroma::utils::HexError;

fn gradient() -> Vec<(u8, u8, u8)> {
    (0..16u8).map(|i| (i * 16, i * 8 + 1, 255 - i)).collect()
}

fn hsl_of(i: usize) -> (Hsl, Hsl) {
    ((i as i32 * 10, 50, 40), (-(i as i32), 60, 70))
}

fn palette() -> Palette {
    let colors = gradient();
    let hsl: Vec<(Hsl, Hsl)> = (0..colors.len()).map(hsl_of).collect();
    prepare_palette(&colors, (0x7b, 0x52, 0x44), &hsl, ((15, 28, 37), (195, 28, 63)))
}

fn ctx() -> RenderCtx {
    RenderCtx::new(vec![
        ("radius".to_string(), VarValue::Text("12".to_string())),
        ("accent".to_string(), VarValue::Text("#3a3a3a".to_string())),
        ("count".to_string(), VarValue::Integer(-42)),
        ("ratio".to_string(), VarValue::Float("0.5".to_string())),
        ("on".to_string(), VarValue::Boolean(true)),
        ("bad".to_string(), VarValue::Text("zzz".to_string())),
        ("x.rgb".to_string(), VarValue::Text("plain".to_string())),
    ])
    .unwrap()
}

/// The text of rendered pieces, with alpha values printed as `f32`.
fn text(pieces: &[Piece]) -> String {
    let mut s = String::new();
    for p in pieces {
        match p {
            Piece::Text(t) => s.push_str(t),
            Piece::Alpha(a) => {
                let v: f32 = a.as_deref().and_then(|t| t.parse().ok()).unwrap_or(1.0);
                s.push_str(&v.to_string());
            }
        }
    }
    s
}

fn render(content: &str) -> (String, usize, usize) {
    let mut out = Vec::new();
    let (r, e) = render_into(&palette(), &ctx(), content, &mut out);
    (text(&out), r, e)
}

#[test]
fn render_plain_text_is_unchanged() {
    assert_eq!(render("plain { text } here"), ("plain { text } here".to_string(), 0, 0));
    assert_eq!(render(""), (String::new(), 0, 0));
}

#[test]
fn render_gradient_steps() {
    assert_eq!(render("background = \"{{col.1.hex}}\""), ("background = \"#0001FF\"".to_string(), 1, 0));
    assert_eq!(render("{{col.16.hex}}").0, "#F079F0");
    assert_eq!(render("{{col.5.hex | strip}}").0, "4021FB");
    assert_eq!(render("{{col.2.rgb}}").0, "rgb(16, 9, 254)");
    assert_eq!(render("{{col.2.rgb|strip}}").0, "16, 9, 254");
    assert_eq!(render("{{col.3.hsl}}").0, "hsl(20, 50%, 40%)");
    assert_eq!(render("{{col.03.hsl | strip}}").0, "20, 50%, 40%");
}

#[test]
fn render_source_and_modifiers() {
    assert_eq!(render("{{col.source.hex}}").0, "#7B5244");
    assert_eq!(render("{{col.source.hex | invert}}").0, "#84ADBB");
    assert_eq!(render("{{col.source.hex | invert | strip}}").0, "84ADBB");
    assert_eq!(render("{{col.source.rgb | invert}}").0, "rgb(132, 173, 187)");
    assert_eq!(render("{{col.source.hsl | invert}}").0, "hsl(195, 28%, 63%)");
    assert_eq!(render("{{col.6.hsl | invert | strip}}").0, "-5, 60%, 70%");
    assert_eq!(render("{{col.source.rgba}}").0, "rgba(123,82,68,1)");
    assert_eq!(render("{{col.9.rgba | alpha:0.5}}").0, "rgba(128,65,247,0.5)");
    assert_eq!(render("{{col.9.rgba | alpha: 0.50 | strip}}").0, "128,65,247,0.5");
    assert_eq!(render("{{col.9.rgba | alpha:nope}}").0, "rgba(128,65,247,1)");
    assert_eq!(render("{{col.9.rgba | alpha:0.2 | alpha:0.3 | bogus}}").0, "rgba(128,65,247,0.3)");
}

#[test]
fn render_alpha_piece_carries_its_text() {
    let mut out = Vec::new();
    render_into(&palette(), &ctx(), "a{{col.1.rgba | alpha: 0.25 }}b", &mut out);
    assert_eq!(
        out,
        vec![
            Piece::Text("argba(0,1,255,".to_string()),
            Piece::Alpha(Some("0.25".to_string())),
            Piece::Text(")b".to_string()),
        ]
    );
}

#[test]
fn render_errors_are_marked_and_counted() {
    assert_eq!(render("{{col.17.hex}}"), ("{{ INVALID_INDEX }}".to_string(), 0, 1));
    assert_eq!(render("{{col.0.hex}}"), ("{{ INVALID_INDEX }}".to_string(), 0, 1));
    assert_eq!(
        render("{{col.99999999999999999999999.hex}}"),
        ("{{ INVALID_INDEX }}".to_string(), 0, 1)
    );
    assert_eq!(render("{{col.1.hexx}}"), ("{{ INVALID_FORMAT }}".to_string(), 1, 1));
    assert_eq!(render("{{col.1.hex }}"), ("{{ INVALID_FORMAT }}".to_string(), 1, 1));
    assert_eq!(render("{{var.nope}}"), ("{{ INVALID_VAR }}".to_string(), 0, 1));
    assert_eq!(render("{{var.bad.rgb}}"), ("{{ INVALID_VAR }}".to_string(), 0, 1));
    assert_eq!(render("{{var.}}"), ("{{ INVALID_VAR }}".to_string(), 0, 1));
}

#[test]
fn render_mistyped_index_is_marked() {
    assert_eq!(render("{{col.name.hex}}"), ("{{ INVALID_INDEX }}".to_string(), 0, 1));
    assert_eq!(render("{{col.1o.hex}}"), ("{{ INVALID_INDEX }}".to_string(), 0, 1));
    assert_eq!(render("{{col.sourc.hex}}"), ("{{ INVALID_INDEX }}".to_string(), 0, 1));
    assert_eq!(render("{{col..hex}}"), ("{{ INVALID_INDEX }}".to_string(), 0, 1));
    assert_eq!(
        render("a{{col.1o.rgba | alpha:0.5}}b{{col.1.hex}}"),
        ("a{{ INVALID_INDEX }}b#0001FF".to_string(), 1, 1)
    );
}

#[test]
fn render_unfinished_placeholders_pass_through() {
    assert_eq!(render("{{col.1}}"), ("{{col.1}}".to_string(), 0, 0));
    assert_eq!(render("{{col.1.hex"), ("{{col.1.hex".to_string(), 0, 0));
    assert_eq!(render("{{col.1.hex}x"), ("{{col.1.hex}x".to_string(), 0, 0));
    assert_eq!(render("{{col.1.hex|}}"), ("{{col.1.hex|}}".to_string(), 0, 0));
    assert_eq!(render("{{col.1.hex|strip"), ("{{col.1.hex|strip".to_string(), 0, 0));
    assert_eq!(render("{{var.radius"), ("{{var.radius".to_string(), 0, 0));
    assert_eq!(render("{{other}} {{"), ("{{other}} {{".to_string(), 0, 0));
}

#[test]
fn render_variables() {
    assert_eq!(render("r={{var.radius}}"), ("r=12".to_string(), 1, 0));
    assert_eq!(render("{{var. accent }}"), ("#3a3a3a".to_string(), 1, 0));
    assert_eq!(render("{{var.accent.rgb}}"), ("58, 58, 58".to_string(), 1, 0));
    assert_eq!(render("rgba({{var.accent.rgb}}, 0.9)").0, "rgba(58, 58, 58, 0.9)");
    assert_eq!(render("{{var.count}} {{var.ratio}} {{var.on}}"), ("-42 0.5 true".to_string(), 3, 0));
    assert_eq!(render("{{var.x.rgb}}"), ("plain".to_string(), 1, 0));
}

#[test]
fn render_counts_over_a_template() {
    let (s, r, e) = render("bg={{col.1.hex}}\nfg={{col.15.hex}}\nbad={{col.20.hex}}\n{{var.radius}}");
    assert_eq!(s, "bg=#0001FF\nfg=#E071F1\nbad={{ INVALID_INDEX }}\n12");
    assert_eq!((r, e), (3, 1));
}

#[test]
fn render_out_of_gradient_index_is_refused() {
    let pal = prepare_palette(&[(1, 2, 3)], (0, 0, 0), &[((0, 0, 0), (0, 0, 0))], ((0, 0, 0), (0, 0, 0)));
    let mut out = Vec::new();
    assert!(try_render_into(&pal, &ctx(), "{{col.2.hex}}", &mut out).is_err());
    let mut out = Vec::new();
    assert_eq!(try_render_into(&pal, &ctx(), "{{col.1.hex}}", &mut out), Ok((1, 0)));
    assert_eq!(text(&out), "#010203");
    let split = RenderCtx::new(vec![("v".to_string(), VarValue::Text("a\u{e9}123".to_string()))]).unwrap();
    let mut out = Vec::new();
    assert!(try_render_into(&pal, &split, "{{var.v.rgb}}", &mut out).is_err());
}

#[test]
fn render_ctx_refuses_unsupported_values() {
    let err = RenderCtx::new(vec![
        ("zeta".to_string(), VarValue::Unsupported),
        ("alpha".to_string(), VarValue::Text("x".to_string())),
        ("beta".to_string(), VarValue::Unsupported),
    ]);
    assert_eq!(err.err(), Some(VarError { name: "beta".to_string() }));
    assert!(RenderCtx::new(vec![]).is_ok());
}

fn entry(template: bool, outputs: usize, commands: usize, header: bool) -> TemplateConfig {
    TemplateConfig {
        name: "kitty".to_string(),
        template: if template { Some("t".to_string()) } else { None },
        output: Some((0..outputs).map(|i| format!("o{i}")).collect()),
        command: if commands > 0 { Some(vec!["true".to_string(); commands]) } else { None },
        header: if header { Some("h".to_string()) } else { None },
        footer: None,
    }
}

#[test]
fn validate_entry_rules() {
    assert_eq!(validate_entry(&entry(true, 1, 0, true)), Ok(()));
    assert_eq!(validate_entry(&entry(false, 0, 1, false)), Ok(()));
    assert_eq!(
        validate_entry(&entry(true, 0, 1, false)),
        Err(EntryError::TemplateWithoutOutput("kitty".to_string()))
    );
    assert_eq!(
        validate_entry(&entry(false, 2, 1, false)),
        Err(EntryError::TemplateWithoutOutput("kitty".to_string()))
    );
    assert_eq!(
        validate_entry(&entry(false, 0, 1, true)),
        Err(EntryError::HeaderWithoutTemplate("kitty".to_string()))
    );
    assert_eq!(
        validate_entry(&entry(false, 0, 0, false)),
        Err(EntryError::NothingToDo("kitty".to_string()))
    );
}

#[test]
fn assemble_output_joins_parts() {
    assert_eq!(assemble_output("main\n\n", "", ""), "main");
    assert_eq!(assemble_output("main\n", "head\n", "\n\nfoot\n"), "head\n\nmain\n\nfoot\n");
    assert_eq!(assemble_output("", "", "\nfoot"), "foot");
    assert_eq!(assemble_output("", "head", ""), "head\n\n");
    assert_eq!(assemble_output("", "head", "foot"), "head\n\n\n\nfoot");
}

#[test]
fn command_env_lists_the_palette() {
    let env = command_env(&palette(), (0x7b, 0x52, 0x44));
    assert_eq!(env.len(), 34);
    assert_eq!(env[0], ("BNCHROMA_ACCENT".to_string(), "#7B5244".to_string()));
    assert_eq!(env[1], ("BNCHROMA_ACCENT_RGB".to_string(), "123, 82, 68".to_string()));
    assert_eq!(env[2], ("BNCHROMA_C01_HEX".to_string(), "#0001FF".to_string()));
    assert_eq!(env[3], ("BNCHROMA_C01_RGB".to_string(), "0, 1, 255".to_string()));
    assert_eq!(env[33], ("BNCHROMA_C16_RGB".to_string(), "240, 121, 240".to_string()));
}

#[test]
fn runs_commands_only_after_a_change() {
    assert!(runs_commands(0, false));
    assert!(runs_commands(2, true));
    assert!(!runs_commands(1, false));
}

#[test]
fn select_source_hex_cases() {
    let colors = [[1, 2, 3], [0xaa, 0xbb, 0xcc], [0xde, 0xad, 0xbe]];
    assert_eq!(select_source_hex(None, 1, &colors), Ok("#010203".to_string()));
    assert_eq!(select_source_hex(None, 0, &colors), Ok("#010203".to_string()));
    assert_eq!(select_source_hex(None, 2, &colors), Ok("#aabbcc".to_string()));
    assert_eq!(select_source_hex(None, 99, &colors), Ok("#deadbe".to_string()));
    assert_eq!(select_source_hex(Some("##7b5244"), 1, &colors), Ok("#7b5244".to_string()));
    assert_eq!(select_source_hex(Some("7B5244"), 1, &colors), Ok("#7B5244".to_string()));
    assert_eq!(select_source_hex(Some("#12"), 1, &colors), Err(HexError::InvalidLength));
}

#[test]
fn render_plain_prefix_then_rest() {
    let rest = "{{col.1.hex}} and {{var.radius}} {{col.x.hex}}";
    let (r, n, e) = render(rest);
    let (whole, n2, e2) = render(&format!("prefix: }} {}", rest));
    assert_eq!(whole, format!("prefix: }} {}", r));
    assert_eq!((n2, e2), (n, e));
}
