use vstd::prelude::*;

verus! {

/// The Russian texts, as a JSON object.
pub const RU_JSON: &'static str = r#"{
  "sheet_name": "Лист",
  "new_document": "Новый документ",
  "opened": "Открыто:",
  "open_failed": "Не удалось открыть:",
  "saved": "Сохранено:",
  "save_failed": "Не удалось сохранить:",
  "exported_png": "Экспортировано в PNG:",
  "export_png_failed": "Не удалось экспортировать PNG:",
  "menu_file": "Файл",
  "menu_open": "Открыть…",
  "menu_save": "Сохранить",
  "menu_save_as": "Сохранить как…",
  "menu_export_png": "Экспорт в PNG…",
  "menu_settings": "Настройки",
  "menu_language": "Язык",
  "menu_help": "Справка",
  "menu_about": "О программе",
  "status_ready": "Готово",
  "tab_rename": "Переименовать",
  "tab_delete": "Удалить",
  "tool_draw": "Рисовать",
  "tool_erase": "Стирать",
  "primitive_line": "Линия",
  "primitive_point": "Точка",
  "color": "Цвет:",
  "center_view": "Центрировать",
  "about_text": "Простой редактор пиксельной графики на сетке.",
  "about_author_label": "Автор:",
  "about_contact_label": "Контакты:",
  "about_license_label": "Лицензия:",
  "about_license_text": "См. файл лицензии, поставляемый с программой.",
  "lang_ru": "Русский",
  "lang_en": "English",
  "lang_de": "Deutsch",
  "lang_es": "Español",
  "lang_fr": "Français",
  "lang_ja": "日本語",
  "lang_zh": "中文"
}"#;

/// The English texts, as a JSON object.
pub const EN_JSON: &'static str = r#"{
  "sheet_name": "Sheet",
  "new_document": "New document",
  "opened": "Opened:",
  "open_failed": "Could not open:",
  "saved": "Saved:",
  "save_failed": "Could not save:",
  "exported_png": "Exported PNG:",
  "export_png_failed": "Could not export PNG:",
  "menu_file": "File",
  "menu_open": "Open…",
  "menu_save": "Save",
  "menu_save_as": "Save as…",
  "menu_export_png": "Export PNG…",
  "menu_settings": "Settings",
  "menu_language": "Language",
  "menu_help": "Help",
  "menu_about": "About",
  "status_ready": "Ready",
  "tab_rename": "Rename",
  "tab_delete": "Delete",
  "tool_draw": "Draw",
  "tool_erase": "Erase",
  "primitive_line": "Line",
  "primitive_point": "Point",
  "color": "Color:",
  "center_view": "Center view",
  "about_text": "A simple grid-based pixel drawing editor.",
  "about_author_label": "Author:",
  "about_contact_label": "Contact:",
  "about_license_label": "License:",
  "about_license_text": "See the license file shipped with the program.",
  "lang_ru": "Русский",
  "lang_en": "English",
  "lang_de": "Deutsch",
  "lang_es": "Español",
  "lang_fr": "Français",
  "lang_ja": "日本語",
  "lang_zh": "中文"
}"#;

/// The German texts, as a JSON object.
pub const DE_JSON: &'static str = r#"{
  "sheet_name": "Blatt",
  "new_document": "Neues Dokument",
  "opened": "Geöffnet:",
  "open_failed": "Öffnen fehlgeschlagen:",
  "saved": "Gespeichert:",
  "save_failed": "Speichern fehlgeschlagen:",
  "exported_png": "PNG exportiert:",
  "export_png_failed": "PNG-Export fehlgeschlagen:",
  "menu_file": "Datei",
  "menu_open": "Öffnen…",
  "menu_save": "Speichern",
  "menu_save_as": "Speichern unter…",
  "menu_export_png": "Als PNG exportieren…",
  "menu_settings": "Einstellungen",
  "menu_language": "Sprache",
  "menu_help": "Hilfe",
  "menu_about": "Über",
  "status_ready": "Bereit",
  "tab_rename": "Umbenennen",
  "tab_delete": "Löschen",
  "tool_draw": "Zeichnen",
  "tool_erase": "Radieren",
  "primitive_line": "Linie",
  "primitive_point": "Punkt",
  "color": "Farbe:",
  "center_view": "Ansicht zentrieren",
  "about_text": "Ein einfacher rasterbasierter Pixel-Zeichen-Editor.",
  "about_author_label": "Autor:",
  "about_contact_label": "Kontakt:",
  "about_license_label": "Lizenz:",
  "about_license_text": "Siehe die mitgelieferte Lizenzdatei.",
  "lang_ru": "Русский",
  "lang_en": "English",
  "lang_de": "Deutsch",
  "lang_es": "Español",
  "lang_fr": "Français",
  "lang_ja": "日本語",
  "lang_zh": "中文"
}"#;

/// The Spanish texts, as a JSON object.
pub const ES_JSON: &'static str = r#"{
  "sheet_name": "Hoja",
  "new_document": "Nuevo documento",
  "opened": "Abierto:",
  "open_failed": "No se pudo abrir:",
  "saved": "Guardado:",
  "save_failed": "No se pudo guardar:",
  "exported_png": "PNG exportado:",
  "export_png_failed": "No se pudo exportar PNG:",
  "menu_file": "Archivo",
  "menu_open": "Abrir…",
  "menu_save": "Guardar",
  "menu_save_as": "Guardar como…",
  "menu_export_png": "Exportar PNG…",
  "menu_settings": "Ajustes",
  "menu_language": "Idioma",
  "menu_help": "Ayuda",
  "menu_about": "Acerca de",
  "status_ready": "Listo",
  "tab_rename": "Renombrar",
  "tab_delete": "Eliminar",
  "tool_draw": "Dibujar",
  "tool_erase": "Borrar",
  "primitive_line": "Línea",
  "primitive_point": "Punto",
  "color": "Color:",
  "center_view": "Centrar vista",
  "about_text": "Un editor sencillo de dibujo de píxeles sobre una cuadrícula.",
  "about_author_label": "Autor:",
  "about_contact_label": "Contacto:",
  "about_license_label": "Licencia:",
  "about_license_text": "Consulte el archivo de licencia incluido.",
  "lang_ru": "Русский",
  "lang_en": "English",
  "lang_de": "Deutsch",
  "lang_es": "Español",
  "lang_fr": "Français",
  "lang_ja": "日本語",
  "lang_zh": "中文"
}"#;

/// The French texts, as a JSON object.
pub const FR_JSON: &'static str = r#"{
  "sheet_name": "Feuille",
  "new_document": "Nouveau document",
  "opened": "Ouvert :",
  "open_failed": "Impossible d'ouvrir :",
  "saved": "Enregistré :",
  "save_failed": "Impossible d'enregistrer :",
  "exported_png": "PNG exporté :",
  "export_png_failed": "Impossible d'exporter le PNG :",
  "menu_file": "Fichier",
  "menu_open": "Ouvrir…",
  "menu_save": "Enregistrer",
  "menu_save_as": "Enregistrer sous…",
  "menu_export_png": "Exporter en PNG…",
  "menu_settings": "Paramètres",
  "menu_language": "Langue",
  "menu_help": "Aide",
  "menu_about": "À propos",
  "status_ready": "Prêt",
  "tab_rename": "Renommer",
  "tab_delete": "Supprimer",
  "tool_draw": "Dessiner",
  "tool_erase": "Effacer",
  "primitive_line": "Ligne",
  "primitive_point": "Point",
  "color": "Couleur :",
  "center_view": "Centrer la vue",
  "about_text": "Un éditeur simple de dessin en pixels sur une grille.",
  "about_author_label": "Auteur :",
  "about_contact_label": "Contact :",
  "about_license_label": "Licence :",
  "about_license_text": "Voir le fichier de licence fourni.",
  "lang_ru": "Русский",
  "lang_en": "English",
  "lang_de": "Deutsch",
  "lang_es": "Español",
  "lang_fr": "Français",
  "lang_ja": "日本語",
  "lang_zh": "中文"
}"#;

/// The Japanese texts, as a JSON object.
pub const JA_JSON: &'static str = r#"{
  "sheet_name": "シート",
  "new_document": "新しいドキュメント",
  "opened": "開きました:",
  "open_failed": "開けませんでした:",
  "saved": "保存しました:",
  "save_failed": "保存できませんでした:",
  "exported_png": "PNGを書き出しました:",
  "export_png_failed": "PNGを書き出せませんでした:",
  "menu_file": "ファイル",
  "menu_open": "開く…",
  "menu_save": "保存",
  "menu_save_as": "名前を付けて保存…",
  "menu_export_png": "PNGに書き出す…",
  "menu_settings": "設定",
  "menu_language": "言語",
  "menu_help": "ヘルプ",
  "menu_about": "このアプリについて",
  "status_ready": "準備完了",
  "tab_rename": "名前を変更",
  "tab_delete": "削除",
  "tool_draw": "描く",
  "tool_erase": "消す",
  "primitive_line": "線",
  "primitive_point": "点",
  "color": "色:",
  "center_view": "表示を中央に",
  "about_text": "グリッド上で描くシンプルなピクセルエディタ。",
  "about_author_label": "作者:",
  "about_contact_label": "連絡先:",
  "about_license_label": "ライセンス:",
  "about_license_text": "同梱のライセンスファイルを参照してください。",
  "lang_ru": "Русский",
  "lang_en": "English",
  "lang_de": "Deutsch",
  "lang_es": "Español",
  "lang_fr": "Français",
  "lang_ja": "日本語",
  "lang_zh": "中文"
}"#;

/// The Chinese texts, as a JSON object.
pub const ZH_JSON: &'static str = r#"{
  "sheet_name": "画布",
  "new_document": "新建文档",
  "opened": "已打开:",
  "open_failed": "无法打开:",
  "saved": "已保存:",
  "save_failed": "无法保存:",
  "exported_png": "已导出 PNG:",
  "export_png_failed": "无法导出 PNG:",
  "menu_file": "文件",
  "menu_open": "打开…",
  "menu_save": "保存",
  "menu_save_as": "另存为…",
  "menu_export_png": "导出 PNG…",
  "menu_settings": "设置",
  "menu_language": "语言",
  "menu_help": "帮助",
  "menu_about": "关于",
  "status_ready": "就绪",
  "tab_rename": "重命名",
  "tab_delete": "删除",
  "tool_draw": "绘制",
  "tool_erase": "擦除",
  "primitive_line": "线条",
  "primitive_point": "点",
  "color": "颜色:",
  "center_view": "居中视图",
  "about_text": "一个基于网格的简单像素绘图编辑器。",
  "about_author_label": "作者:",
  "about_contact_label": "联系方式:",
  "about_license_label": "许可证:",
  "about_license_text": "请参阅随程序提供的许可证文件。",
  "lang_ru": "Русский",
  "lang_en": "English",
  "lang_de": "Deutsch",
  "lang_es": "Español",
  "lang_fr": "Français",
  "lang_ja": "日本語",
  "lang_zh": "中文"
}"#;

} // verus!
